//! What the directory walk keeps: the files outside the version-control
//! metadata directory, each with its extension.
use crate::paths::{extension_of, extension_spec, split_segments, split_spec, views};
use vstd::prelude::*;
use vstd::string::StrSliceExecFns;

verus! {

/// A file found under the project root: its path relative to the root and
/// its extension, if any.
pub struct FileInfo {
    pub path: String,
    pub extension: Option<String>,
}

/// The view of an optional string.
pub open spec fn opt_view(o: Option<String>) -> Option<Seq<char>> {
    match o {
        Some(s) => Some(s@),
        None => None,
    }
}

/// The name of the version-control metadata directory.
pub open spec fn vcs_dir() -> Seq<char> {
    seq!['.', 'g', 'i', 't']
}

/// Whether the path has the version-control metadata directory as one of
/// its pieces.
pub open spec fn in_vcs_dir(p: Seq<char>) -> bool {
    split_spec(p).contains(vcs_dir())
}

/// The paths of `ps` that are kept, in order.
pub open spec fn kept_paths(ps: Seq<Seq<char>>) -> Seq<Seq<char>>
    decreases ps.len(),
{
    if ps.len() == 0 {
        seq![]
    } else if in_vcs_dir(ps.last()) {
        kept_paths(ps.drop_last())
    } else {
        kept_paths(ps.drop_last()).push(ps.last())
    }
}

/// The record of a kept file: its path and the extension of that path.
pub open spec fn is_record_of(f: FileInfo, p: Seq<char>) -> bool {
    f.path@ == p && opt_view(f.extension) == extension_spec(p)
}

fn is_vcs_dir_name(s: &str) -> (r: bool)
    ensures
        r == (s@ == vcs_dir()),
{
    if s.unicode_len() == 4 && s.get_char(0) == '.' && s.get_char(1) == 'g' && s.get_char(2) == 'i'
        && s.get_char(3) == 't' {
        assert(s@ =~= vcs_dir());
        true
    } else {
        false
    }
}

/// Whether the path lies in the version-control metadata directory.
pub fn is_in_vcs_dir(p: &str) -> (r: bool)
    ensures
        r == in_vcs_dir(p@),
{
    let segs = split_segments(p);
    let mut k: usize = 0;
    while k < segs.len()
        invariant
            k <= segs.len(),
            views(segs@) == split_spec(p@),
            forall|m: int| 0 <= m < k ==> views(segs@)[m] != vcs_dir(),
        decreases segs.len() - k,
    {
        if is_vcs_dir_name(segs[k].as_str()) {
            assert(views(segs@)[k as int] == vcs_dir());
            return true;
        }
        k = k + 1;
    }
    false
}

/// The record of the file at `path`, unless it lies in the version-control
/// metadata directory.
pub fn file_info_for(path: String) -> (r: Option<FileInfo>)
    ensures
        r is None <==> in_vcs_dir(path@),
        r matches Some(f) ==> is_record_of(f, path@),
{
    if is_in_vcs_dir(path.as_str()) {
        None
    } else {
        let extension = extension_of(path.as_str());
        Some(FileInfo { path, extension })
    }
}

/// The records of the files at `paths` (relative to the project root) that
/// lie outside the version-control metadata directory, in order.
pub fn project_files(paths: &Vec<String>) -> (r: Vec<FileInfo>)
    ensures
        r@.len() == kept_paths(views(paths@)).len(),
        forall|k: int| 0 <= k < r@.len() ==> is_record_of(#[trigger] r@[k], kept_paths(views(paths@))[k]),
{
    let ghost ps = views(paths@);
    let mut r: Vec<FileInfo> = Vec::new();
    let mut i: usize = 0;
    while i < paths.len()
        invariant
            i <= paths.len(),
            ps == views(paths@),
            r@.len() == kept_paths(ps.subrange(0, i as int)).len(),
            forall|k: int|
                0 <= k < r@.len() ==> is_record_of(#[trigger] r@[k], kept_paths(ps.subrange(0, i as int))[k]),
        decreases paths.len() - i,
    {
        assert(ps.subrange(0, i + 1).drop_last() =~= ps.subrange(0, i as int));
        assert(ps.subrange(0, i + 1).last() == paths[i as int]@);
        match file_info_for(paths[i].clone()) {
            Some(f) => {
                r.push(f);
            },
            None => {},
        }
        i = i + 1;
    }
    assert(ps.subrange(0, paths.len() as int) =~= ps);
    r
}

} // verus!
