//! Import extraction: the raw targets of `import ... from '...'`,
//! `import '...'` and `require('...')` statements, found by one regular
//! expression; and which files are scanned for them.
use crate::paths::{extension_of, extension_spec, views};
use vstd::prelude::*;
use vstd::string::StringExecFns;

verus! {

/// The one pattern for both import forms; group 1 is the quoted target.
pub const IMPORT_PATTERN: &'static str = r#"(?:import\s+(?:[\w\s{},*]+from\s+)?|require\()['"]([^'"]+)['"]"#;

/// Group 1 of each successive match of regular expression `pattern` in
/// `content`; `None` when `pattern` is not a valid regular expression.
pub uninterp spec fn group_one_captures(pattern: Seq<char>, content: Seq<char>) -> Option<
    Seq<Seq<char>>,
>;

/// Relies on regex's `Regex::new` (an error for an invalid pattern) and
/// `Regex::captures_iter`: the text of capture group 1 of each successive
/// non-overlapping match, empty where the group took no part.
#[verifier::external_body]
fn captures_group_one(pattern: &str, content: &str) -> (r: Option<Vec<String>>)
    ensures
        r matches Some(v) ==> group_one_captures(pattern@, content@) == Some(views(v@)),
        r is None ==> group_one_captures(pattern@, content@) is None,
{
    let re = regex::Regex::new(pattern).ok()?;
    Some(
        re.captures_iter(content).map(|c| c.get(1).map_or("", |m| m.as_str()).to_string()).collect(),
    )
}

/// The raw import targets found in `content`, in order.
pub open spec fn imports_in(content: Seq<char>) -> Seq<Seq<char>> {
    match group_one_captures(IMPORT_PATTERN@, content) {
        Some(t) => t,
        None => seq![],
    }
}

/// Lists the raw import targets in `content`, in order of appearance.
pub fn extract_imports(content: &str) -> (r: Vec<String>)
    ensures
        views(r@) == imports_in(content@),
{
    match captures_group_one(IMPORT_PATTERN, content) {
        Some(v) => v,
        None => {
            let v: Vec<String> = Vec::new();
            assert(views(v@) =~= Seq::<Seq<char>>::empty());
            v
        },
    }
}

/// The extensions of the files that are scanned for imports.
pub open spec fn scanned_ext(e: Seq<char>) -> bool {
    ||| e == seq!['t', 's']
    ||| e == seq!['t', 's', 'x']
    ||| e == seq!['j', 's']
    ||| e == seq!['j', 's', 'x']
    ||| e == seq!['r', 's']
}

/// Whether the file at `p` is scanned for imports.
pub open spec fn is_scanned(p: Seq<char>) -> bool {
    match extension_spec(p) {
        Some(e) => scanned_ext(e),
        None => false,
    }
}

/// The raw imports taken from the file `p` with content `content`: those in
/// its content when it is scanned, none otherwise.
pub open spec fn scanned_imports(p: Seq<char>, content: Seq<char>) -> Seq<Seq<char>> {
    if is_scanned(p) {
        imports_in(content)
    } else {
        seq![]
    }
}

/// Whether the file at `p` is scanned for imports.
pub fn is_scanned_path(p: &str) -> (r: bool)
    ensures
        r == is_scanned(p@),
{
    match extension_of(p) {
        None => false,
        Some(e) => {
            proof {
                reveal_strlit("ts");
                reveal_strlit("tsx");
                reveal_strlit("js");
                reveal_strlit("jsx");
                reveal_strlit("rs");
            }
            assert("ts"@ =~= seq!['t', 's']);
            assert("tsx"@ =~= seq!['t', 's', 'x']);
            assert("js"@ =~= seq!['j', 's']);
            assert("jsx"@ =~= seq!['j', 's', 'x']);
            assert("rs"@ =~= seq!['r', 's']);
            e == String::from_str("ts") || e == String::from_str("tsx") || e == String::from_str(
                "js",
            ) || e == String::from_str("jsx") || e == String::from_str("rs")
        },
    }
}

/// The raw imports of the file `p` with content `content`.
pub fn imports_of_file(p: &str, content: &str) -> (r: Vec<String>)
    ensures
        views(r@) == scanned_imports(p@, content@),
{
    if is_scanned_path(p) {
        extract_imports(content)
    } else {
        let v: Vec<String> = Vec::new();
        assert(views(v@) =~= Seq::<Seq<char>>::empty());
        v
    }
}

} // verus!
