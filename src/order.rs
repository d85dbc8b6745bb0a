use vstd::prelude::*;

use std::cmp::Ordering;

use crate::content::Content;
use crate::table::Table;
use crate::text::{find_last, last_index_of, lemma_last_index_of_bounds};

verus! {

/// The order that the default collator puts two texts in.
pub uninterp spec fn collation(a: Seq<char>, b: Seq<char>) -> Ordering;

/// Relies on feruca's `Collator::collate` with the default collator (CLDR
/// root table, shifted variable weights, byte-value tiebreak): the order of
/// two texts, which depends on the texts alone.
#[verifier::external_body]
fn collate(a: &str, b: &str) -> (r: Ordering)
    ensures
        r == collation(a@, b@),
{
    feruca::Collator::default().collate(a, b)
}

/// The characters of each text.
pub open spec fn views(v: Seq<String>) -> Seq<Seq<char>> {
    v.map_values(|s: String| s@)
}

/// The directory part of a path: what precedes its last `/` (the root for a
/// path directly under it, empty for a bare name).
pub open spec fn parent_of(p: Seq<char>) -> Seq<char> {
    crate::util::parent_path(p)
}

/// The file name of a path: what follows its last `/`.
pub open spec fn file_name_of(p: Seq<char>) -> Seq<char> {
    p.subrange(last_index_of(p, '/') + 1, p.len() as int)
}

/// Paths compared by directory first, then by file name, each collated.
pub open spec fn path_order(a: Seq<char>, b: Seq<char>) -> Ordering {
    let by_parent = collation(parent_of(a), parent_of(b));
    if by_parent == Ordering::Equal {
        collation(file_name_of(a), file_name_of(b))
    } else {
        by_parent
    }
}

/// `x` put into `s` after every element that does not come after it.
pub open spec fn insert_sorted(s: Seq<Seq<char>>, x: Seq<char>) -> Seq<Seq<char>>
    decreases s.len(),
{
    if s.len() == 0 {
        seq![x]
    } else if path_order(s.last(), x) == Ordering::Greater {
        insert_sorted(s.drop_last(), x).push(s.last())
    } else {
        s.push(x)
    }
}

/// The paths of `s` in the order of a stable insertion sort by `path_order`.
pub open spec fn sort_paths(s: Seq<Seq<char>>) -> Seq<Seq<char>>
    decreases s.len(),
{
    if s.len() == 0 {
        s
    } else {
        insert_sorted(sort_paths(s.drop_last()), s.last())
    }
}

/// The dependencies of the entry under `k`.
pub open spec fn deps_of(t: Map<Seq<char>, Content>, k: Seq<char>) -> Seq<Seq<char>> {
    t[k].view_deps()
}

/// Whether the entry under `k` can be placed once `done` is placed.
pub open spec fn ready(t: Map<Seq<char>, Content>, k: Seq<char>, done: Seq<Seq<char>>) -> bool {
    &&& t.contains_key(k)
    &&& forall|j: int| 0 <= j < deps_of(t, k).len() ==> done.contains(#[trigger] deps_of(t, k)[j])
}

/// One pass over `rest`: each entry that is ready is placed at once, the
/// others are kept, in order, for the next pass.
pub open spec fn scan(
    t: Map<Seq<char>, Content>,
    rest: Seq<Seq<char>>,
    done: Seq<Seq<char>>,
    kept: Seq<Seq<char>>,
) -> (Seq<Seq<char>>, Seq<Seq<char>>)
    decreases rest.len(),
{
    if rest.len() == 0 {
        (done, kept)
    } else if ready(t, rest[0], done) {
        scan(t, rest.drop_first(), done.push(rest[0]), kept)
    } else {
        scan(t, rest.drop_first(), done, kept.push(rest[0]))
    }
}

/// Passes repeated until every entry is placed (`Ok`), or until a pass
/// places none (`Err` with the entries left).
pub open spec fn resolve(
    t: Map<Seq<char>, Content>,
    rem: Seq<Seq<char>>,
    done: Seq<Seq<char>>,
) -> Result<Seq<Seq<char>>, Seq<Seq<char>>>
    decreases rem.len(),
{
    if rem.len() == 0 {
        Ok(done)
    } else {
        let (d, kept) = scan(t, rem, done, Seq::empty());
        if kept.len() >= rem.len() {
            Err(rem)
        } else {
            resolve(t, kept, d)
        }
    }
}

/// The order in which a content table is applied, or the entries caught in
/// a cycle.
pub open spec fn application_order(t: &Table<Content>) -> Result<
    Seq<Seq<char>>,
    Seq<Seq<char>>,
> {
    resolve(t@, sort_paths(t.keys_seq()), Seq::empty())
}

/// Some entry depends on a key that the table lacks.
pub open spec fn has_unknown_dependency(t: Map<Seq<char>, Content>) -> bool {
    exists|k: Seq<char>, j: int|
        t.contains_key(k) && 0 <= j < deps_of(t, k).len() && !t.contains_key(
            #[trigger] deps_of(t, k)[j],
        )
}

/// Every dependency of each entry of `v` stands before it in `v`.
pub open spec fn dependencies_first(t: Map<Seq<char>, Content>, v: Seq<Seq<char>>) -> bool {
    forall|i: int, j: int|
        0 <= i < v.len() && 0 <= j < deps_of(t, v[i]).len() ==> #[trigger] v.subrange(
            0,
            i,
        ).contains(#[trigger] deps_of(t, v[i])[j])
}

/// `v` holds each of `keys` once and nothing else.
pub open spec fn is_permutation_of(v: Seq<Seq<char>>, keys: Seq<Seq<char>>) -> bool {
    &&& v.len() == keys.len()
    &&& v.no_duplicates()
    &&& forall|k: Seq<char>| #[trigger] v.contains(k) <==> keys.contains(k)
}

/// The order of two paths: directory first, then file name.
fn compare_paths(a: &str, b: &str) -> (r: Ordering)
    ensures
        r == path_order(a@, b@),
{
    proof {
        lemma_last_index_of_bounds(a@, '/');
        lemma_last_index_of_bounds(b@, '/');
    }
    let na = a.unicode_len();
    let nb = b.unicode_len();
    let pa = crate::util::parent_of(a);
    let pb = crate::util::parent_of(b);
    let fa = match find_last(a, '/') {
        Some(i) => a.substring_char(i + 1, na),
        None => a.substring_char(0, na),
    };
    let fb = match find_last(b, '/') {
        Some(i) => b.substring_char(i + 1, nb),
        None => b.substring_char(0, nb),
    };
    proof {
        assert(fa@ =~= file_name_of(a@));
        assert(fb@ =~= file_name_of(b@));
    }
    let by_parent = collate(pa.as_str(), pb.as_str());
    match by_parent {
        Ordering::Equal => collate(fa, fb),
        _ => by_parent,
    }
}

/// Sorts paths by directory, then file name, keeping the given order among
/// paths that compare equal.
pub fn sort_by_path(paths: &Vec<String>) -> (r: Vec<String>)
    ensures
        views(r@) == sort_paths(views(paths@)),
{
    let mut result: Vec<String> = Vec::new();
    let mut i: usize = 0;
    while i < paths.len()
        invariant
            i <= paths@.len(),
            views(result@) == sort_paths(views(paths@).subrange(0, i as int)),
        decreases paths@.len() - i,
    {
        let x = paths[i].clone();
        let ghost sorted = views(result@);
        let mut j: usize = result.len();
        proof {
            assert(sorted.subrange(0, j as int) =~= sorted);
            assert(insert_sorted(sorted, x@) + sorted.subrange(j as int, sorted.len() as int)
                =~= insert_sorted(sorted, x@));
        }
        while j > 0 && matches!(compare_paths(result[j - 1].as_str(), x.as_str()), Ordering::Greater)
            invariant
                j <= result@.len(),
                sorted == views(result@),
                insert_sorted(sorted, x@) == insert_sorted(sorted.subrange(0, j as int), x@)
                    + sorted.subrange(j as int, sorted.len() as int),
            decreases j,
        {
            proof {
                let pre = sorted.subrange(0, j as int);
                assert(pre.drop_last() =~= sorted.subrange(0, j - 1));
                assert(pre.last() == sorted[j - 1]);
                assert(insert_sorted(sorted.subrange(0, j - 1), x@).push(sorted[j - 1])
                    + sorted.subrange(j as int, sorted.len() as int) =~= insert_sorted(
                    sorted.subrange(0, j - 1),
                    x@,
                ) + sorted.subrange(j - 1, sorted.len() as int));
            }
            j = j - 1;
        }
        proof {
            let pre = sorted.subrange(0, j as int);
            if j > 0 {
                assert(pre.last() == sorted[j - 1]);
            }
            assert(insert_sorted(pre, x@) =~= pre.push(x@));
        }
        result.insert(j, x);
        proof {
            let s = views(paths@).subrange(0, i + 1);
            assert(s.drop_last() =~= views(paths@).subrange(0, i as int));
            assert(views(result@) =~= sorted.subrange(0, j as int).push(x@) + sorted.subrange(
                j as int,
                sorted.len() as int,
            ));
        }
        i = i + 1;
    }
    assert(views(paths@).subrange(0, paths@.len() as int) =~= views(paths@));
    result
}


/// Whether `v` holds `s`.
fn contains_text(v: &Vec<String>, s: &str) -> (r: bool)
    ensures
        r == views(v@).contains(s@),
{
    let mut i: usize = 0;
    while i < v.len()
        invariant
            i <= v@.len(),
            forall|j: int| 0 <= j < i ==> v@[j]@ != s@,
        decreases v@.len() - i,
    {
        if crate::text::str_eq(v[i].as_str(), s) {
            proof {
                assert(views(v@)[i as int] == s@);
            }
            return true;
        }
        i = i + 1;
    }
    proof {
        if views(v@).contains(s@) {
            let j = choose|j: int| 0 <= j < views(v@).len() && views(v@)[j] == s@;
            assert(v@[j]@ == s@);
        }
    }
    false
}

/// Whether every dependency of `c` is in `done`.
fn dependencies_placed(c: &Content, done: &Vec<String>) -> (r: bool)
    ensures
        r == forall|j: int|
            0 <= j < c.view_deps().len() ==> views(done@).contains(#[trigger] c.view_deps()[j]),
{
    let mut i: usize = 0;
    while i < c.dependencies.len()
        invariant
            i <= c.dependencies@.len(),
            forall|j: int| 0 <= j < i ==> views(done@).contains(#[trigger] c.view_deps()[j]),
        decreases c.dependencies@.len() - i,
    {
        assert(c.view_deps()[i as int] == c.dependencies@[i as int]@);
        if !contains_text(done, c.dependencies[i].as_str()) {
            return false;
        }
        i = i + 1;
    }
    true
}

/// Places the entries of `base` pass by pass: in each pass, every entry whose
/// dependencies are all placed is placed, in the order of `base`. Fails with
/// the entries left when a pass places none.
pub fn place_in_passes(t: &Table<Content>, base: Vec<String>) -> (r: Result<Vec<String>, Vec<String>>)
    ensures
        match r {
            Ok(v) => resolve(t@, views(base@), Seq::empty()) == Ok::<Seq<Seq<char>>, Seq<Seq<char>>>(views(v@)),
            Err(v) => resolve(t@, views(base@), Seq::empty()) == Err::<Seq<Seq<char>>, Seq<Seq<char>>>(views(v@)),
        },
{
    let mut done: Vec<String> = Vec::new();
    let mut rem = base;
    assert(views(done@) =~= Seq::<Seq<char>>::empty());
    while rem.len() > 0
        invariant
            resolve(t@, views(base@), Seq::empty()) == resolve(t@, views(rem@), views(done@)),
        decreases rem@.len(),
    {
        let ghost done0 = views(done@);
        let mut kept: Vec<String> = Vec::new();
        let mut i: usize = 0;
        proof {
            assert(views(rem@).subrange(0, rem@.len() as int) =~= views(rem@));
            assert(views(kept@) =~= Seq::<Seq<char>>::empty());
        }
        while i < rem.len()
            invariant
                i <= rem@.len(),
                scan(t@, views(rem@), done0, Seq::empty()) == scan(
                    t@,
                    views(rem@).subrange(i as int, rem@.len() as int),
                    views(done@),
                    views(kept@),
                ),
                kept@.len() <= i,
            decreases rem@.len() - i,
        {
            let ghost rest = views(rem@).subrange(i as int, rem@.len() as int);
            let k = rem[i].clone();
            let is_ready = match t.get(k.as_str()) {
                Some(c) => dependencies_placed(c, &done),
                None => false,
            };
            proof {
                assert(rest[0] == k@);
                assert(rest.drop_first() =~= views(rem@).subrange(i + 1, rem@.len() as int));
                if t@.contains_key(k@) {
                    assert(deps_of(t@, k@) == t@[k@].view_deps());
                }
                assert(is_ready == ready(t@, k@, views(done@)));
            }
            let ghost d0 = done@;
            let ghost k0 = kept@;
            let ghost kv = k@;
            if is_ready {
                done.push(k);
                proof {
                    assert(views(done@) =~= views(d0).push(kv));
                }
            } else {
                kept.push(k);
                proof {
                    assert(views(kept@) =~= views(k0).push(kv));
                }
            }
            i = i + 1;
        }
        proof {
            assert(views(rem@).subrange(i as int, rem@.len() as int) =~= Seq::<Seq<char>>::empty());
        }
        if kept.len() >= rem.len() {
            return Err(rem);
        }
        rem = kept;
    }
    Ok(done)
}


proof fn lemma_insert_sorted(s: Seq<Seq<char>>, x: Seq<char>)
    ensures
        insert_sorted(s, x).len() == s.len() + 1,
        forall|y: Seq<char>| #[trigger] insert_sorted(s, x).contains(y) <==> (s.contains(y) || y == x),
        s.no_duplicates() && !s.contains(x) ==> insert_sorted(s, x).no_duplicates(),
    decreases s.len(),
{
    let r = insert_sorted(s, x);
    if s.len() == 0 {
        assert(r =~= seq![x]);
        assert(r[0] == x);
    } else if path_order(s.last(), x) == Ordering::Greater {
        let p = s.drop_last();
        lemma_insert_sorted(p, x);
        let q = insert_sorted(p, x);
        assert(r == q.push(s.last()));
        assert forall|y: Seq<char>| #[trigger] r.contains(y) <==> (s.contains(y) || y == x) by {
            if r.contains(y) {
                let i = choose|i: int| 0 <= i < r.len() && r[i] == y;
                if i < q.len() {
                    assert(q.contains(y));
                    if p.contains(y) {
                        let m = choose|m: int| 0 <= m < p.len() && p[m] == y;
                        assert(s[m] == y);
                    }
                } else {
                    assert(s[s.len() - 1] == y);
                }
            }
            if s.contains(y) {
                let i = choose|i: int| 0 <= i < s.len() && s[i] == y;
                if i < s.len() - 1 {
                    assert(p[i] == y);
                    assert(q.contains(y));
                    let m = choose|m: int| 0 <= m < q.len() && q[m] == y;
                    assert(r[m] == y);
                } else {
                    assert(r[r.len() - 1] == y);
                }
            }
            if y == x {
                assert(q.contains(x));
                let m = choose|m: int| 0 <= m < q.len() && q[m] == x;
                assert(r[m] == x);
            }
        }
        if s.no_duplicates() && !s.contains(x) {
            assert(!p.contains(x)) by {
                if p.contains(x) {
                    let m = choose|m: int| 0 <= m < p.len() && p[m] == x;
                    assert(s[m] == x);
                }
            }
            assert(!q.contains(s.last())) by {
                if q.contains(s.last()) {
                    if p.contains(s.last()) {
                        let m = choose|m: int| 0 <= m < p.len() && p[m] == s.last();
                        assert(s[m] == s[s.len() - 1]);
                    }
                    assert(s[s.len() - 1] != x) by {
                        assert(s.contains(s[s.len() - 1]));
                    }
                }
            }
            assert forall|a: int, b: int| 0 <= a < r.len() && 0 <= b < r.len() && a != b implies r[a]
                != r[b] by {
                if a < q.len() && b < q.len() {
                } else if a < q.len() {
                    assert(q.contains(q[a]));
                } else if b < q.len() {
                    assert(q.contains(q[b]));
                }
            }
        }
    } else {
        assert(r == s.push(x));
        assert forall|y: Seq<char>| #[trigger] r.contains(y) <==> (s.contains(y) || y == x) by {
            if r.contains(y) {
                let i = choose|i: int| 0 <= i < r.len() && r[i] == y;
                if i < s.len() {
                    assert(s[i] == y);
                }
            }
            if s.contains(y) {
                let i = choose|i: int| 0 <= i < s.len() && s[i] == y;
                assert(r[i] == y);
            }
            if y == x {
                assert(r[s.len() as int] == x);
            }
        }
    }
}

/// Sorting keeps the paths: the same ones, each as often.
pub proof fn lemma_sort_paths(s: Seq<Seq<char>>)
    ensures
        sort_paths(s).len() == s.len(),
        forall|y: Seq<char>| #[trigger] sort_paths(s).contains(y) <==> s.contains(y),
        s.no_duplicates() ==> sort_paths(s).no_duplicates(),
    decreases s.len(),
{
    if s.len() > 0 {
        let p = s.drop_last();
        lemma_sort_paths(p);
        lemma_insert_sorted(sort_paths(p), s.last());
        assert forall|y: Seq<char>| #[trigger] sort_paths(s).contains(y) <==> s.contains(y) by {
            if s.contains(y) && y != s.last() {
                let i = choose|i: int| 0 <= i < s.len() && s[i] == y;
                assert(p[i] == y);
                assert(sort_paths(p).contains(y));
            }
            if p.contains(y) {
                let i = choose|i: int| 0 <= i < p.len() && p[i] == y;
                assert(s[i] == y);
            }
            if y == s.last() {
                assert(s[s.len() - 1] == y);
            }
        }
        if s.no_duplicates() {
            assert(!p.contains(s.last())) by {
                if p.contains(s.last()) {
                    let m = choose|m: int| 0 <= m < p.len() && p[m] == s.last();
                    assert(s[m] == s[s.len() - 1]);
                }
            }
            assert(!sort_paths(p).contains(s.last()));
        }
    }
}

/// What holds of the placed and the unplaced entries at every step.
pub open spec fn placement_inv(
    t: Map<Seq<char>, Content>,
    keys: Seq<Seq<char>>,
    rem: Seq<Seq<char>>,
    done: Seq<Seq<char>>,
) -> bool {
    &&& done.no_duplicates()
    &&& rem.no_duplicates()
    &&& forall|k: Seq<char>| #[trigger] done.contains(k) ==> !rem.contains(k)
    &&& forall|k: Seq<char>| #[trigger] keys.contains(k) <==> (done.contains(k) || rem.contains(k))
    &&& done.len() + rem.len() == keys.len()
    &&& dependencies_first(t, done)
}

proof fn lemma_scan_inv(
    t: Map<Seq<char>, Content>,
    keys: Seq<Seq<char>>,
    rest: Seq<Seq<char>>,
    done: Seq<Seq<char>>,
    kept: Seq<Seq<char>>,
)
    requires
        placement_inv(t, keys, kept + rest, done),
    ensures
        placement_inv(t, keys, scan(t, rest, done, kept).1, scan(t, rest, done, kept).0),
    decreases rest.len(),
{
    if rest.len() > 0 {
        let k = rest[0];
        let r0 = kept + rest;
        let r1 = kept + rest.drop_first();
        let n = kept.len();
        assert(r0[n as int] == k);
        assert forall|i: int| 0 <= i < r1.len() implies #[trigger] r1[i] == (if i < n {
            r0[i]
        } else {
            r0[i + 1]
        }) by {}
        if ready(t, k, done) {
            let d1 = done.push(k);
            assert(r0.contains(k));
            assert(!done.contains(k));
            assert(d1.no_duplicates()) by {
                assert forall|a: int, b: int| 0 <= a < d1.len() && 0 <= b < d1.len() && a != b
                    implies d1[a] != d1[b] by {
                    if a < done.len() && b < done.len() {
                    } else if a < done.len() {
                        assert(done.contains(done[a]));
                    } else if b < done.len() {
                        assert(done.contains(done[b]));
                    }
                }
            }
            assert(r1.no_duplicates()) by {
                assert forall|a: int, b: int| 0 <= a < r1.len() && 0 <= b < r1.len() && a != b
                    implies r1[a] != r1[b] by {
                    let a0 = if a < n { a } else { a + 1 };
                    let b0 = if b < n { b } else { b + 1 };
                    assert(r0[a0] != r0[b0]);
                }
            }
            assert forall|x: Seq<char>| #[trigger] r1.contains(x) ==> r0.contains(x) && x != k by {
                if r1.contains(x) {
                    let i = choose|i: int| 0 <= i < r1.len() && r1[i] == x;
                    let i0 = if i < n { i } else { i + 1 };
                    assert(r0[i0] == x);
                    assert(i0 != n);
                }
            }
            assert forall|x: Seq<char>| #[trigger] r0.contains(x) && x != k ==> r1.contains(x) by {
                if r0.contains(x) && x != k {
                    let i = choose|i: int| 0 <= i < r0.len() && r0[i] == x;
                    assert(i != n);
                    let i1 = if i < n { i } else { i - 1 };
                    assert(r1[i1] == x);
                }
            }
            assert forall|x: Seq<char>| #[trigger] d1.contains(x) <==> (done.contains(x) || x == k) by {
                if d1.contains(x) {
                    let i = choose|i: int| 0 <= i < d1.len() && d1[i] == x;
                    if i < done.len() {
                        assert(done[i] == x);
                    }
                }
                if done.contains(x) {
                    let i = choose|i: int| 0 <= i < done.len() && done[i] == x;
                    assert(d1[i] == x);
                }
                if x == k {
                    assert(d1[done.len() as int] == x);
                }
            }
            assert forall|i: int, j: int|
                0 <= i < d1.len() && 0 <= j < deps_of(t, d1[i]).len() implies #[trigger] d1.subrange(
                0,
                i,
            ).contains(#[trigger] deps_of(t, d1[i])[j]) by {
                if i < done.len() {
                    assert(d1.subrange(0, i) =~= done.subrange(0, i));
                    assert(done.subrange(0, i).contains(deps_of(t, done[i])[j]));
                } else {
                    assert(d1.subrange(0, i) =~= done);
                    assert(done.contains(deps_of(t, k)[j]));
                }
            }
            lemma_scan_inv(t, keys, rest.drop_first(), d1, kept);
        } else {
            assert(kept.push(k) + rest.drop_first() =~= r0);
            lemma_scan_inv(t, keys, rest.drop_first(), done, kept.push(k));
        }
    } else {
        assert(kept + rest =~= kept);
    }
}

proof fn lemma_resolve_inv(
    t: Map<Seq<char>, Content>,
    keys: Seq<Seq<char>>,
    rem: Seq<Seq<char>>,
    done: Seq<Seq<char>>,
)
    requires
        placement_inv(t, keys, rem, done),
    ensures
        resolve(t, rem, done) is Ok ==> is_permutation_of(resolve(t, rem, done)->Ok_0, keys)
            && dependencies_first(t, resolve(t, rem, done)->Ok_0),
    decreases rem.len(),
{
    if rem.len() == 0 {
        assert forall|k: Seq<char>| #[trigger] done.contains(k) <==> keys.contains(k) by {}
    } else {
        let (d, kept) = scan(t, rem, done, Seq::empty());
        assert(Seq::<Seq<char>>::empty() + rem =~= rem);
        lemma_scan_inv(t, keys, rem, done, Seq::empty());
        if kept.len() < rem.len() {
            lemma_resolve_inv(t, keys, kept, d);
        }
    }
}

/// Every successful application order places each content key exactly once,
/// and places the dependencies of each entry before it.
pub proof fn lemma_application_order_is_topological(t: &Table<Content>)
    requires
        t.keys_seq().no_duplicates(),
    ensures
        application_order(t) is Ok ==> is_permutation_of(application_order(t)->Ok_0, t.keys_seq())
            && dependencies_first(t@, application_order(t)->Ok_0),
{
    let keys = t.keys_seq();
    lemma_sort_paths(keys);
    let base = sort_paths(keys);
    assert forall|k: Seq<char>| #[trigger] keys.contains(k) <==> (Seq::<Seq<char>>::empty().contains(
        k,
    ) || base.contains(k)) by {}
    lemma_resolve_inv(t@, keys, base, Seq::empty());
}

/// Two entries that depend on each other are never both placed: the table
/// has no application order.
pub proof fn lemma_mutual_dependency_is_cycle(t: &Table<Content>, a: Seq<char>, b: Seq<char>)
    requires
        t.keys_seq().no_duplicates(),
        t@.contains_key(a),
        t@.contains_key(b),
        deps_of(t@, a).contains(b),
        deps_of(t@, b).contains(a),
    ensures
        application_order(t) is Err,
{
    lemma_application_order_is_topological(t);
    t.lemma_keys();
    if application_order(t) is Ok {
        let v = application_order(t)->Ok_0;
        assert(v.contains(a));
        assert(v.contains(b));
        let ia = choose|i: int| 0 <= i < v.len() && v[i] == a;
        let ib = choose|i: int| 0 <= i < v.len() && v[i] == b;
        let ja = choose|j: int| 0 <= j < deps_of(t@, a).len() && deps_of(t@, a)[j] == b;
        let jb = choose|j: int| 0 <= j < deps_of(t@, b).len() && deps_of(t@, b)[j] == a;
        assert(v.subrange(0, ia).contains(deps_of(t@, v[ia])[ja]));
        assert(v.subrange(0, ib).contains(deps_of(t@, v[ib])[jb]));
        let mb = choose|m: int| 0 <= m < ia && v.subrange(0, ia)[m] == b;
        let ma = choose|m: int| 0 <= m < ib && v.subrange(0, ib)[m] == a;
        assert(v[mb] == b);
        assert(v[ma] == a);
        assert(mb == ib);
        assert(ma == ia);
    }
}

/// The order depends on the table alone: two tables with the same entries,
/// inserted in the same order, are applied in the same order.
pub proof fn lemma_application_order_is_deterministic(a: &Table<Content>, b: &Table<Content>)
    requires
        a@ == b@,
        a.keys_seq() == b.keys_seq(),
    ensures
        application_order(a) == application_order(b),
{
}


/// The dependencies have no cycle: some ranking of the keys puts every
/// dependency strictly below the entry that depends on it.
pub open spec fn acyclic(t: Map<Seq<char>, Content>) -> bool {
    exists|rank: spec_fn(Seq<char>) -> nat| #[trigger] ranks_dependencies_below(t, rank)
}

/// Every dependency ranks strictly below the entry that depends on it.
pub open spec fn ranks_dependencies_below(
    t: Map<Seq<char>, Content>,
    rank: spec_fn(Seq<char>) -> nat,
) -> bool {
    forall|k: Seq<char>, j: int|
        t.contains_key(k) && 0 <= j < deps_of(t, k).len() ==> #[trigger] rank(deps_of(t, k)[j])
            < rank(k)
}

proof fn lemma_scan_counts(
    t: Map<Seq<char>, Content>,
    rest: Seq<Seq<char>>,
    done: Seq<Seq<char>>,
    kept: Seq<Seq<char>>,
)
    ensures
        scan(t, rest, done, kept).0.len() + scan(t, rest, done, kept).1.len() == done.len()
            + kept.len() + rest.len(),
        scan(t, rest, done, kept).0.len() >= done.len(),
        forall|i: int|
            0 <= i < rest.len() && ready(t, #[trigger] rest[i], done) ==> scan(
                t,
                rest,
                done,
                kept,
            ).0.len() > done.len(),
    decreases rest.len(),
{
    if rest.len() > 0 {
        let r1 = rest.drop_first();
        if ready(t, rest[0], done) {
            lemma_scan_counts(t, r1, done.push(rest[0]), kept);
        } else {
            lemma_scan_counts(t, r1, done, kept.push(rest[0]));
            assert forall|i: int|
                0 <= i < rest.len() && ready(t, #[trigger] rest[i], done) implies scan(
                t,
                rest,
                done,
                kept,
            ).0.len() > done.len() by {
                assert(i > 0);
                assert(r1[i - 1] == rest[i]);
            }
        }
    }
}

/// Some element of a non-empty sequence has the least rank.
proof fn lemma_min_rank(s: Seq<Seq<char>>, rank: spec_fn(Seq<char>) -> nat) -> (m: int)
    requires
        s.len() > 0,
    ensures
        0 <= m < s.len(),
        forall|i: int| 0 <= i < s.len() ==> rank(s[m]) <= rank(#[trigger] s[i]),
    decreases s.len(),
{
    if s.len() == 1 {
        0
    } else {
        let m1 = lemma_min_rank(s.drop_last(), rank);
        assert forall|i: int| 0 <= i < s.len() - 1 implies rank(s[m1]) <= rank(#[trigger] s[i]) by {
            assert(s.drop_last()[i] == s[i]);
        }
        if rank(s.last()) < rank(s[m1]) {
            s.len() - 1
        } else {
            m1
        }
    }
}

proof fn lemma_resolve_ok(
    t: Map<Seq<char>, Content>,
    keys: Seq<Seq<char>>,
    rem: Seq<Seq<char>>,
    done: Seq<Seq<char>>,
    rank: spec_fn(Seq<char>) -> nat,
)
    requires
        placement_inv(t, keys, rem, done),
        forall|k: Seq<char>| #[trigger] t.contains_key(k) <==> keys.contains(k),
        !has_unknown_dependency(t),
        ranks_dependencies_below(t, rank),
    ensures
        resolve(t, rem, done) is Ok,
    decreases rem.len(),
{
    if rem.len() > 0 {
        let m = lemma_min_rank(rem, rank);
        let x = rem[m];
        assert(keys.contains(x));
        assert(t.contains_key(x));
        assert forall|j: int| 0 <= j < deps_of(t, x).len() implies done.contains(
            #[trigger] deps_of(t, x)[j],
        ) by {
            let d = deps_of(t, x)[j];
            assert(t.contains_key(d));
            assert(keys.contains(d));
            if rem.contains(d) {
                let i = choose|i: int| 0 <= i < rem.len() && rem[i] == d;
                assert(rank(rem[m]) <= rank(rem[i]));
            }
        }
        assert(ready(t, rem[m], done));
        lemma_scan_counts(t, rem, done, Seq::empty());
        let (d, kept) = scan(t, rem, done, Seq::empty());
        assert(kept.len() < rem.len());
        assert(Seq::<Seq<char>>::empty() + rem =~= rem);
        lemma_scan_inv(t, keys, rem, done, Seq::empty());
        lemma_resolve_ok(t, keys, kept, d, rank);
    }
}

/// For a table whose dependencies all name entries, an application order
/// exists exactly when the dependencies have no cycle (a self-dependency is
/// a cycle); otherwise the order fails with the entries left over.
pub proof fn lemma_order_exists_iff_acyclic(t: &Table<Content>)
    requires
        t.keys_seq().no_duplicates(),
        !has_unknown_dependency(t@),
    ensures
        application_order(t) is Ok <==> acyclic(t@),
{
    let keys = t.keys_seq();
    t.lemma_keys();
    lemma_sort_paths(keys);
    let base = sort_paths(keys);
    assert forall|k: Seq<char>| #[trigger] keys.contains(k) <==> (Seq::<Seq<char>>::empty().contains(
        k,
    ) || base.contains(k)) by {}
    if acyclic(t@) {
        let rank = choose|rank: spec_fn(Seq<char>) -> nat| #[trigger]
            ranks_dependencies_below(t@, rank);
        lemma_resolve_ok(t@, keys, base, Seq::empty(), rank);
    }
    if application_order(t) is Ok {
        lemma_application_order_is_topological(t);
        let v = application_order(t)->Ok_0;
        let rank = |k: Seq<char>| (choose|i: int| 0 <= i < v.len() && v[i] == k) as nat;
        assert forall|k: Seq<char>, j: int|
            t@.contains_key(k) && 0 <= j < deps_of(t@, k).len() implies #[trigger] rank(
            deps_of(t@, k)[j],
        ) < rank(k) by {
            assert(v.contains(k));
            let i = choose|i: int| 0 <= i < v.len() && v[i] == k;
            assert(v.subrange(0, i).contains(deps_of(t@, v[i])[j]));
            let m = choose|m: int| 0 <= m < i && v.subrange(0, i)[m] == deps_of(t@, k)[j];
            let d = deps_of(t@, k)[j];
            assert(v[m] == d);
            let md = choose|md: int| 0 <= md < v.len() && v[md] == d;
            assert(md == m);
        }
        assert(ranks_dependencies_below(t@, rank));
    }
}

} // verus!
