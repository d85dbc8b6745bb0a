use vstd::prelude::*;

use crate::error::SkelError;
use crate::text::{find_last, last_index_of, lemma_last_index_of_bounds, starts_with, str_eq};

verus! {

/// The directory a path is in: what precedes its last `/` (the root for a
/// path directly under it, empty for a bare name).
pub open spec fn parent_path(p: Seq<char>) -> Seq<char> {
    let k = last_index_of(p, '/');
    if k < 0 {
        Seq::empty()
    } else if k == 0 {
        seq!['/']
    } else {
        p.subrange(0, k)
    }
}

/// `child` under `dir`: `child` itself when it is absolute or `dir` is empty.
pub open spec fn join_path(dir: Seq<char>, child: Seq<char>) -> Seq<char> {
    if dir.len() == 0 || (child.len() > 0 && child[0] == '/') {
        child
    } else if dir.last() == '/' {
        dir + child
    } else {
        dir + seq!['/'] + child
    }
}

/// The directory a path is in.
pub fn parent_of(path: &str) -> (r: String)
    ensures
        r@ == parent_path(path@),
{
    proof {
        lemma_last_index_of_bounds(path@, '/');
        reveal_strlit("/");
    }
    match find_last(path, '/') {
        None => String::new(),
        Some(0) => String::from_str("/"),
        Some(k) => String::from_str(path.substring_char(0, k)),
    }
}

/// `child` under `dir`.
pub fn join(dir: &str, child: &str) -> (r: String)
    ensures
        r@ == join_path(dir@, child@),
{
    proof {
        reveal_strlit("/");
    }
    let n = dir.unicode_len();
    let absolute = starts_with(child, "/");
    proof {
        assert("/"@ =~= seq!['/']);
        if child@.len() > 0 && child@[0] == '/' {
            assert(child@.subrange(0, 1) =~= "/"@);
        }
        if absolute {
            assert(child@.subrange(0, 1)[0] == "/"@[0]);
            assert(child@[0] == '/');
        }
    }
    if n == 0 || absolute {
        return String::from_str(child);
    }
    let mut r = String::from_str(dir);
    if dir.get_char(n - 1) != '/' {
        r.append("/");
    }
    r.append(child);
    proof {
        assert(dir@.last() == dir@[n - 1]);
        assert(r@ =~= join_path(dir@, child@));
    }
    r
}


/// A path reduced to whether it starts at the root and its named segments.
pub type PathState = (bool, Seq<Seq<char>>);

/// What one segment between slashes does: an empty segment at the very
/// start goes to the root; other empty segments and `.` do nothing; `..`
/// drops the last segment, or the root when there is none; any other name
/// is appended.
pub open spec fn apply_segment(st: PathState, seg: Seq<char>, at_start: bool) -> PathState {
    if seg.len() == 0 {
        if at_start {
            (true, Seq::empty())
        } else {
            st
        }
    } else if seg == "."@ {
        st
    } else if seg == ".."@ {
        if st.1.len() > 0 {
            (st.0, st.1.drop_last())
        } else {
            (false, st.1)
        }
    } else {
        (st.0, st.1.push(seg))
    }
}

/// The state after the characters `s`, of which `seg` is the segment begun
/// and not yet ended; `at_start` holds while that segment is the first.
pub open spec fn walk(st: PathState, s: Seq<char>, seg: Seq<char>, at_start: bool) -> PathState
    decreases s.len(),
{
    if s.len() == 0 {
        if seg.len() == 0 && at_start {
            st
        } else {
            apply_segment(st, seg, at_start)
        }
    } else if s[0] == '/' {
        walk(apply_segment(st, seg, at_start), s.drop_first(), Seq::empty(), false)
    } else {
        walk(st, s.drop_first(), seg.push(s[0]), at_start)
    }
}

/// The segments joined with `/`, after a `/` when the path is rooted.
pub open spec fn render(st: PathState) -> Seq<char>
    decreases st.1.len(),
{
    if st.1.len() == 0 {
        Seq::empty()
    } else {
        let before = render((st.0, st.1.drop_last()));
        if st.1.len() == 1 && !st.0 {
            st.1.last()
        } else {
            before + seq!['/'] + st.1.last()
        }
    }
}

/// `path` taken from the directory `from`: a rooted `path` starts afresh,
/// `.` stays, `..` goes up.
pub open spec fn normalized(from: Seq<char>, path: Seq<char>) -> Seq<char> {
    render(walk(walk((false, Seq::empty()), from, Seq::empty(), true), path, Seq::empty(), true))
}

/// Walks the characters of `s` from the state `st`.
fn walk_path(st: (bool, Vec<String>), s: &str) -> (r: (bool, Vec<String>))
    ensures
        (r.0, crate::order::views(r.1@)) == walk(
            (st.0, crate::order::views(st.1@)),
            s@,
            Seq::empty(),
            true,
        ),
{
    let (mut rooted, mut segs) = st;
    let n = s.unicode_len();
    let mut i: usize = 0;
    let mut start: usize = 0;
    let mut at_start = true;
    let ghost target = walk((st.0, crate::order::views(st.1@)), s@, Seq::empty(), true);
    assert(s@.subrange(0, 0) =~= Seq::<char>::empty());
    assert(s@.subrange(0, n as int) =~= s@);
    while i < n
        invariant
            n == s@.len(),
            start <= i <= n,
            target == walk(
                (rooted, crate::order::views(segs@)),
                s@.subrange(i as int, n as int),
                s@.subrange(start as int, i as int),
                at_start,
            ),
        decreases n - i,
    {
        let c = s.get_char(i);
        proof {
            assert(s@.subrange(i as int, n as int)[0] == c);
            assert(s@.subrange(i as int, n as int).drop_first() =~= s@.subrange(i + 1, n as int));
            assert(s@.subrange(start as int, i as int).push(c) =~= s@.subrange(start as int, i + 1));
        }
        if c == '/' {
            let seg = s.substring_char(start, i);
            let applied = apply(rooted, segs, seg, at_start);
            rooted = applied.0;
            segs = applied.1;
            at_start = false;
            start = i + 1;
            proof {
                assert(s@.subrange(start as int, i + 1) =~= Seq::<char>::empty());
            }
        }
        i = i + 1;
    }
    let seg = s.substring_char(start, n);
    proof {
        assert(s@.subrange(n as int, n as int) =~= Seq::<char>::empty());
    }
    if seg.unicode_len() == 0 && at_start {
        (rooted, segs)
    } else {
        apply(rooted, segs, seg, at_start)
    }
}

/// Applies one segment.
fn apply(rooted: bool, segs: Vec<String>, seg: &str, at_start: bool) -> (r: (bool, Vec<String>))
    ensures
        (r.0, crate::order::views(r.1@)) == apply_segment(
            (rooted, crate::order::views(segs@)),
            seg@,
            at_start,
        ),
{
    proof {
        reveal_strlit(".");
        reveal_strlit("..");
    }
    let mut segs = segs;
    let ghost before = crate::order::views(segs@);
    if seg.unicode_len() == 0 {
        if at_start {
            let empty: Vec<String> = Vec::new();
            assert(crate::order::views(empty@) =~= Seq::<Seq<char>>::empty());
            (true, empty)
        } else {
            (rooted, segs)
        }
    } else if str_eq(seg, ".") {
        (rooted, segs)
    } else if str_eq(seg, "..") {
        if segs.len() > 0 {
            segs.pop();
            assert(crate::order::views(segs@) =~= before.drop_last());
            (rooted, segs)
        } else {
            (false, segs)
        }
    } else {
        segs.push(String::from_str(seg));
        assert(crate::order::views(segs@) =~= before.push(seg@));
        (rooted, segs)
    }
}

/// `path` resolved against the directory `from`, with `.` and `..` worked
/// out and repeated slashes dropped.
pub fn normalize_path(from: &str, path: &str) -> (r: Result<String, SkelError>)
    ensures
        r matches Ok(p) && p@ == normalized(from@, path@),
{
    let empty: Vec<String> = Vec::new();
    assert(crate::order::views(empty@) =~= Seq::<Seq<char>>::empty());
    let st = walk_path(walk_path((false, empty), from), path);
    let ghost fin = (st.0, crate::order::views(st.1@));
    let mut out = String::new();
    let mut i: usize = 0;
    assert(crate::order::views(st.1@).subrange(0, 0) =~= Seq::<Seq<char>>::empty());
    assert(out@ =~= render((st.0, crate::order::views(st.1@).subrange(0, 0))));
    while i < st.1.len()
        invariant
            i <= st.1@.len(),
            out@ == render((st.0, crate::order::views(st.1@).subrange(0, i as int))),
        decreases st.1@.len() - i,
    {
        let ghost pre = crate::order::views(st.1@).subrange(0, i + 1);
        proof {
            assert(pre.drop_last() =~= crate::order::views(st.1@).subrange(0, i as int));
            assert(pre.last() == st.1@[i as int]@);
            reveal_strlit("/");
        }
        if i == 0 && !st.0 {
            out.append(st.1[i].as_str());
            assert(out@ =~= st.1@[i as int]@);
        } else {
            out.append("/");
            out.append(st.1[i].as_str());
        }
        i = i + 1;
    }
    assert(crate::order::views(st.1@).subrange(0, i as int) =~= crate::order::views(st.1@));
    Ok(out)
}

} // verus!
