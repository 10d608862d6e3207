//! Project-relative paths held as `/`-separated strings, and the algebra on
//! them: splitting into segments, collapsing `.` and `..`, joining back.
use vstd::prelude::*;
use vstd::string::{StrSliceExecFns, StringExecFns};

verus! {

/// The views of a sequence of strings.
pub open spec fn views(v: Seq<String>) -> Seq<Seq<char>> {
    v.map_values(|x: String| x@)
}

/// Splitting state after reading `s`: the finished segments and the one in progress.
pub open spec fn split_acc(s: Seq<char>) -> (Seq<Seq<char>>, Seq<char>)
    decreases s.len(),
{
    if s.len() == 0 {
        (seq![], seq![])
    } else {
        let (done, cur) = split_acc(s.drop_last());
        if s.last() == '/' {
            (done.push(cur), seq![])
        } else {
            (done, cur.push(s.last()))
        }
    }
}

/// The `/`-separated pieces of `s`, empty pieces included; never empty.
pub open spec fn split_spec(s: Seq<char>) -> Seq<Seq<char>> {
    split_acc(s).0.push(split_acc(s).1)
}

pub open spec fn dot() -> Seq<char> {
    seq!['.']
}

pub open spec fn dot_dot() -> Seq<char> {
    seq!['.', '.']
}

/// One step of normalization: `""` and `.` vanish, `..` cancels the segment
/// before it when there is one to cancel, anything else is appended.
pub open spec fn push_segment(stack: Seq<Seq<char>>, seg: Seq<char>) -> Seq<Seq<char>> {
    if seg.len() == 0 || seg == dot() {
        stack
    } else if seg == dot_dot() && stack.len() > 0 && stack.last() != dot_dot() {
        stack.drop_last()
    } else {
        stack.push(seg)
    }
}

/// The segments `segs` pushed in order onto `stack`.
pub open spec fn normalize_onto(stack: Seq<Seq<char>>, segs: Seq<Seq<char>>) -> Seq<Seq<char>>
    decreases segs.len(),
{
    if segs.len() == 0 {
        stack
    } else {
        push_segment(normalize_onto(stack, segs.drop_last()), segs.last())
    }
}

/// Segments joined with `/`.
pub open spec fn join_spec(segs: Seq<Seq<char>>) -> Seq<char>
    decreases segs.len(),
{
    if segs.len() == 0 {
        seq![]
    } else if segs.len() == 1 {
        segs[0]
    } else {
        join_spec(segs.drop_last()) + seq!['/'] + segs.last()
    }
}

/// The normal segments of a path.
pub open spec fn normal_segments(p: Seq<char>) -> Seq<Seq<char>> {
    normalize_onto(seq![], split_spec(p))
}

/// The normal form of a path: `a/./b`, `./a/b` and `a/c/../b` are all `a/b`.
pub open spec fn normal_path(p: Seq<char>) -> Seq<char> {
    join_spec(normal_segments(p))
}

/// The last piece of a path (its file name).
pub open spec fn file_name_spec(p: Seq<char>) -> Seq<char> {
    split_spec(p).last()
}

/// The largest `i` with `0 <= i < k` and `name[i] == '.'`, or `-1`.
pub open spec fn last_dot_before(name: Seq<char>, k: int) -> int
    decreases k,
{
    if k <= 0 {
        -1
    } else if name[k - 1] == '.' {
        k - 1
    } else {
        last_dot_before(name, k - 1)
    }
}

/// The extension of a path: what follows the last `.` of its file name;
/// none when the file name holds no `.` (so `.env` has the extension `env`).
pub open spec fn extension_spec(p: Seq<char>) -> Option<Seq<char>> {
    let name = file_name_spec(p);
    let d = last_dot_before(name, name.len() as int);
    if d >= 0 {
        Some(name.subrange(d + 1, name.len() as int))
    } else {
        None
    }
}

fn is_dot_str(s: &str) -> (r: bool)
    ensures
        r == (s@ == dot()),
{
    if s.unicode_len() == 1 {
        let c = s.get_char(0);
        if c == '.' {
            assert(s@ =~= dot());
            true
        } else {
            false
        }
    } else {
        false
    }
}

fn is_dot_dot_str(s: &str) -> (r: bool)
    ensures
        r == (s@ == dot_dot()),
{
    if s.unicode_len() == 2 {
        let c0 = s.get_char(0);
        let c1 = s.get_char(1);
        if c0 == '.' && c1 == '.' {
            assert(s@ =~= dot_dot());
            true
        } else {
            false
        }
    } else {
        false
    }
}

/// Splits a path at each `/`.
pub fn split_segments(s: &str) -> (r: Vec<String>)
    ensures
        views(r@) == split_spec(s@),
{
    let n = s.unicode_len();
    let mut done: Vec<String> = Vec::new();
    let mut start: usize = 0;
    let mut i: usize = 0;
    while i < n
        invariant
            n == s@.len(),
            start <= i <= n,
            split_acc(s@.subrange(0, i as int)) == (views(done@), s@.subrange(
                start as int,
                i as int,
            )),
        decreases n - i,
    {
        let c = s.get_char(i);
        assert(s@.subrange(0, i + 1).drop_last() =~= s@.subrange(0, i as int));
        assert(s@.subrange(0, i + 1).last() == c);
        if c == '/' {
            let piece = String::from_str(s.substring_char(start, i));
            let ghost before = done@;
            done.push(piece);
            assert(views(done@) =~= views(before).push(piece@));
            start = i + 1;
            assert(s@.subrange(start as int, start as int) =~= Seq::<char>::empty());
        } else {
            assert(s@.subrange(start as int, i + 1) =~= s@.subrange(start as int, i as int).push(
                c,
            ));
        }
        i = i + 1;
    }
    let last = String::from_str(s.substring_char(start, n));
    let ghost before = done@;
    done.push(last);
    assert(views(done@) =~= views(before).push(last@));
    assert(s@.subrange(0, n as int) =~= s@);
    done
}

/// Pushes `segs` in order onto `stack`, collapsing `.`, `..` and empty pieces.
pub fn normalize_segments(stack: Vec<String>, segs: &Vec<String>) -> (r: Vec<String>)
    ensures
        views(r@) == normalize_onto(views(stack@), views(segs@)),
{
    let mut cur = stack;
    let ghost start = views(stack@);
    let mut i: usize = 0;
    while i < segs.len()
        invariant
            i <= segs.len(),
            views(cur@) == normalize_onto(start, views(segs@).subrange(0, i as int)),
        decreases segs.len() - i,
    {
        let seg = &segs[i];
        assert(views(segs@).subrange(0, i + 1).drop_last() =~= views(segs@).subrange(0, i as int));
        assert(views(segs@).subrange(0, i + 1).last() == seg@);
        let ghost before = cur@;
        if seg.as_str().unicode_len() == 0 || is_dot_str(seg.as_str()) {
        } else if is_dot_dot_str(seg.as_str()) && cur.len() > 0 && !is_dot_dot_str(
            cur[cur.len() - 1].as_str(),
        ) {
            cur.pop();
            assert(views(cur@) =~= views(before).drop_last());
        } else {
            cur.push(seg.clone());
            assert(views(cur@) =~= views(before).push(seg@));
        }
        i = i + 1;
    }
    assert(views(segs@).subrange(0, segs.len() as int) =~= views(segs@));
    cur
}

/// Joins segments with `/`.
pub fn join_segments(segs: &Vec<String>) -> (r: String)
    ensures
        r@ == join_spec(views(segs@)),
{
    let mut r = String::new();
    let mut i: usize = 0;
    while i < segs.len()
        invariant
            i <= segs.len(),
            r@ == join_spec(views(segs@).subrange(0, i as int)),
        decreases segs.len() - i,
    {
        assert(views(segs@).subrange(0, i + 1).drop_last() =~= views(segs@).subrange(0, i as int));
        assert(views(segs@).subrange(0, i + 1).last() == segs[i as int]@);
        if i > 0 {
            proof {
                reveal_strlit("/");
            }
            assert("/"@ =~= seq!['/']);
            r.append("/");
        } else {
            assert(r@ + segs[0]@ =~= segs[0]@);
        }
        r.append(segs[i].as_str());
        i = i + 1;
    }
    assert(views(segs@).subrange(0, segs.len() as int) =~= views(segs@));
    r
}

/// The normal form of a path.
pub fn normalize_path(p: &str) -> (r: String)
    ensures
        r@ == normal_path(p@),
{
    let segs = split_segments(p);
    let empty: Vec<String> = Vec::new();
    assert(views(empty@) =~= Seq::<Seq<char>>::empty());
    let norm = normalize_segments(empty, &segs);
    join_segments(&norm)
}

/// The file name of a path: its last `/`-separated piece.
pub fn file_name_of(p: &str) -> (r: String)
    ensures
        r@ == file_name_spec(p@),
{
    let mut segs = split_segments(p);
    let ghost all = views(segs@);
    let last = segs.pop().unwrap();
    proof {
        assert(all.last() == last@);
    }
    last
}

/// The extension of a path, if its file name has one.
pub fn extension_of(p: &str) -> (r: Option<String>)
    ensures
        r matches Some(e) ==> extension_spec(p@) == Some(e@),
        r is None ==> extension_spec(p@) is None,
{
    let name = file_name_of(p);
    let n = name.as_str().unicode_len();
    let mut k: usize = n;
    while k > 0
        invariant
            k <= n,
            n == name@.len(),
            name@ == file_name_spec(p@),
            last_dot_before(name@, n as int) == last_dot_before(name@, k as int),
        decreases k,
    {
        if name.as_str().get_char(k - 1) == '.' {
            assert(last_dot_before(name@, k as int) == k - 1);
            let ext = String::from_str(name.as_str().substring_char(k, n));
            return Some(ext);
        }
        k = k - 1;
    }
    None
}

} // verus!
