//! Resolution of a raw import string against the set of known project files.
use crate::paths::{join_segments, normalize_segments, normal_segments, normalize_onto, join_spec, split_segments, split_spec, views};
use vstd::prelude::*;
use vstd::string::StringExecFns;

verus! {

/// How many candidates one import produces.
pub const CANDIDATE_COUNT: usize = 9;

/// The source extensions tried for an import, in order of preference.
pub open spec fn source_ext(k: int) -> Seq<char> {
    if k == 0 {
        seq!['t', 's']
    } else if k == 1 {
        seq!['t', 's', 'x']
    } else if k == 2 {
        seq!['j', 's']
    } else {
        seq!['j', 's', 'x']
    }
}

/// The entry under directory `base` named `name`.
pub open spec fn child(base: Seq<char>, name: Seq<char>) -> Seq<char> {
    if base.len() == 0 {
        name
    } else {
        base + seq!['/'] + name
    }
}

/// The `k`-th candidate for the joined import path `base`: first `base`
/// itself, then `base` with each source extension appended, then the index
/// file under `base` for each source extension.
pub open spec fn candidate(base: Seq<char>, k: int) -> Seq<char> {
    if k == 0 {
        base
    } else if k < 5 {
        base + seq!['.'] + source_ext(k - 1)
    } else {
        child(base, seq!['i', 'n', 'd', 'e', 'x', '.'] + source_ext(k - 5))
    }
}

/// The directory that holds `file`, as normal segments.
pub open spec fn parent_dir(file: Seq<char>) -> Seq<Seq<char>> {
    let segs = normal_segments(file);
    if segs.len() == 0 {
        segs
    } else {
        segs.drop_last()
    }
}

/// `raw` joined to the directory of `file`, in normal form.
pub open spec fn import_base(raw: Seq<char>, file: Seq<char>) -> Seq<char> {
    join_spec(normalize_onto(parent_dir(file), split_spec(raw)))
}

/// Whether `raw` is a relative import (starts with `.`).
pub open spec fn is_relative(raw: Seq<char>) -> bool {
    raw.len() > 0 && raw[0] == '.'
}

/// The first candidate from the `k`-th on that is a known file.
pub open spec fn first_known(base: Seq<char>, known: Set<Seq<char>>, k: int) -> Option<Seq<char>>
    decreases 9 - k,
{
    if k >= 9 {
        None
    } else if known.contains(candidate(base, k)) {
        Some(candidate(base, k))
    } else {
        first_known(base, known, k + 1)
    }
}

/// The file that import `raw` in `file` refers to, among `known`; `None` for
/// a non-relative import or when no candidate is known.
pub open spec fn resolve_spec(raw: Seq<char>, file: Seq<char>, known: Set<Seq<char>>) -> Option<
    Seq<char>,
> {
    if is_relative(raw) {
        first_known(import_base(raw, file), known, 0)
    } else {
        None
    }
}

/// A non-relative import never resolves, whatever files are known.
pub proof fn lemma_bare_import_unresolved(raw: Seq<char>, file: Seq<char>, known: Set<Seq<char>>)
    requires
        !is_relative(raw),
    ensures
        resolve_spec(raw, file, known) is None,
{
}

/// A resolved import names a known file.
pub proof fn lemma_resolved_is_known(raw: Seq<char>, file: Seq<char>, known: Set<Seq<char>>)
    ensures
        resolve_spec(raw, file, known) matches Some(t) ==> known.contains(t),
{
    if is_relative(raw) {
        lemma_first_known_is_known(import_base(raw, file), known, 0);
    }
}

proof fn lemma_first_known_is_known(base: Seq<char>, known: Set<Seq<char>>, k: int)
    ensures
        first_known(base, known, k) matches Some(t) ==> known.contains(t),
    decreases 9 - k,
{
    if k < 9 && !known.contains(candidate(base, k)) {
        lemma_first_known_is_known(base, known, k + 1);
    }
}

fn source_ext_str(k: usize) -> (r: &'static str)
    requires
        k < 4,
    ensures
        r@ == source_ext(k as int),
{
    if k == 0 {
        proof {
            reveal_strlit("ts");
        }
        assert("ts"@ =~= source_ext(0));
        "ts"
    } else if k == 1 {
        proof {
            reveal_strlit("tsx");
        }
        assert("tsx"@ =~= source_ext(1));
        "tsx"
    } else if k == 2 {
        proof {
            reveal_strlit("js");
        }
        assert("js"@ =~= source_ext(2));
        "js"
    } else {
        proof {
            reveal_strlit("jsx");
        }
        assert("jsx"@ =~= source_ext(3));
        "jsx"
    }
}

/// The `k`-th resolution candidate for `base`.
pub fn candidate_at(base: &String, k: usize) -> (r: String)
    requires
        k < CANDIDATE_COUNT,
    ensures
        r@ == candidate(base@, k as int),
{
    if k == 0 {
        base.clone()
    } else if k < 5 {
        proof {
            reveal_strlit(".");
        }
        assert("."@ =~= seq!['.']);
        let r = base.clone().concat(".").concat(source_ext_str(k - 1));
        assert(r@ =~= candidate(base@, k as int));
        r
    } else {
        proof {
            reveal_strlit("index.");
            reveal_strlit("/");
        }
        assert("index."@ =~= seq!['i', 'n', 'd', 'e', 'x', '.']);
        assert("/"@ =~= seq!['/']);
        let name = String::from_str("index.").concat(source_ext_str(k - 5));
        if base.as_str().unicode_len() == 0 {
            name
        } else {
            let r = base.clone().concat("/").concat(name.as_str());
            assert(r@ =~= candidate(base@, k as int));
            r
        }
    }
}

/// `raw` joined to the directory that holds `file`, in normal form.
pub fn import_base_of(raw: &str, file: &str) -> (r: String)
    ensures
        r@ == import_base(raw@, file@),
{
    let file_segs = split_segments(file);
    let empty: Vec<String> = Vec::new();
    assert(views(empty@) =~= Seq::<Seq<char>>::empty());
    let mut dir = normalize_segments(empty, &file_segs);
    if dir.len() > 0 {
        let ghost all = views(dir@);
        dir.pop();
        assert(views(dir@) =~= all.drop_last());
    }
    let raw_segs = split_segments(raw);
    let joined = normalize_segments(dir, &raw_segs);
    join_segments(&joined)
}

/// Whether `raw` is a relative import.
pub fn is_relative_import(raw: &str) -> (r: bool)
    ensures
        r == is_relative(raw@),
{
    raw.unicode_len() > 0 && raw.get_char(0) == '.'
}

} // verus!
