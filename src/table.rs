use vstd::prelude::*;

use crate::text::str_eq;

verus! {

/// The keys of a sequence of entries, in order.
pub open spec fn keys_of<V>(s: Seq<(String, V)>) -> Seq<Seq<char>> {
    s.map_values(|e: (String, V)| e.0@)
}

/// Whether some entry of `s` has key `k`.
pub open spec fn has_key<V>(s: Seq<(String, V)>, k: Seq<char>) -> bool {
    exists|i: int| 0 <= i < s.len() && #[trigger] s[i].0@ == k
}

/// An index at which `s` has key `k`, if it has it.
pub open spec fn index_of_key<V>(s: Seq<(String, V)>, k: Seq<char>) -> int {
    choose|i: int| 0 <= i < s.len() && #[trigger] s[i].0@ == k
}

/// The map that a sequence of entries with distinct keys stands for.
pub open spec fn map_of<V>(s: Seq<(String, V)>) -> Map<Seq<char>, V> {
    Map::new(|k: Seq<char>| has_key(s, k), |k: Seq<char>| s[index_of_key(s, k)].1)
}

/// A map from names to values that remembers the order in which names came.
#[derive(Debug, PartialEq, Eq)]
pub struct Table<V> {
    entries: Vec<(String, V)>,
}

proof fn lemma_lookup<V>(s: Seq<(String, V)>, i: int)
    requires
        keys_of(s).no_duplicates(),
        0 <= i < s.len(),
    ensures
        map_of(s).contains_key(s[i].0@),
        map_of(s)[s[i].0@] == s[i].1,
{
    let k = s[i].0@;
    assert(has_key(s, k));
    let j = index_of_key(s, k);
    assert(keys_of(s)[j] == keys_of(s)[i]);
}

proof fn lemma_map_of_drop_last<V>(s: Seq<(String, V)>)
    requires
        keys_of(s).no_duplicates(),
        s.len() > 0,
    ensures
        keys_of(s.drop_last()).no_duplicates(),
        !map_of(s.drop_last()).contains_key(s.last().0@),
        map_of(s) == map_of(s.drop_last()).insert(s.last().0@, s.last().1),
{
    let p = s.drop_last();
    let n = s.len() - 1;
    assert(keys_of(p) =~= keys_of(s).drop_last());
    assert forall|a: int, b: int| 0 <= a < p.len() && 0 <= b < p.len() && a != b implies keys_of(
        p,
    )[a] != keys_of(p)[b] by {
        assert(keys_of(s)[a] != keys_of(s)[b]);
    }
    if has_key(p, s.last().0@) {
        let j = index_of_key(p, s.last().0@);
        assert(keys_of(s)[j] == keys_of(s)[n]);
    }
    let m = map_of(p).insert(s.last().0@, s.last().1);
    assert forall|k: Seq<char>| #[trigger] map_of(s).contains_key(k) == m.contains_key(k) by {
        if has_key(s, k) && k != s.last().0@ {
            let j = index_of_key(s, k);
            assert(p[j].0@ == k);
        }
        if has_key(p, k) {
            let j = index_of_key(p, k);
            assert(s[j].0@ == k);
        }
        if k == s.last().0@ {
            assert(s[n].0@ == k);
        }
    }
    assert forall|k: Seq<char>| #[trigger] map_of(s).contains_key(k) implies map_of(s)[k] == m[k] by {
        let j = index_of_key(s, k);
        lemma_lookup(s, j);
        if j < n {
            assert(p[j] == s[j]);
            lemma_lookup(p, j);
        }
    }
    assert(map_of(s) =~= m);
}

impl<V> View for Table<V> {
    type V = Map<Seq<char>, V>;

    closed spec fn view(&self) -> Map<Seq<char>, V> {
        map_of(self.entries@)
    }
}

impl<V> Table<V> {
    #[verifier::type_invariant]
    closed spec fn inv(&self) -> bool {
        keys_of(self.entries@).no_duplicates()
    }

    /// The keys in the order in which they were first inserted.
    pub closed spec fn keys_seq(&self) -> Seq<Seq<char>> {
        keys_of(self.entries@)
    }

    /// The map's keys are exactly the keys in order of insertion.
    pub proof fn lemma_keys(&self)
        ensures
            forall|k: Seq<char>| #[trigger]
                self@.contains_key(k) <==> self.keys_seq().contains(k),
            self@.dom() == self.keys_seq().to_set(),
            self@.dom().finite(),
    {
        let s = self.entries@;
        assert forall|k: Seq<char>| #[trigger]
            self@.contains_key(k) <==> self.keys_seq().contains(k) by {
            if self@.contains_key(k) {
                let i = choose|i: int| 0 <= i < s.len() && #[trigger] s[i].0@ == k;
                assert(self.keys_seq()[i] == k);
            }
            if self.keys_seq().contains(k) {
                let i = choose|i: int| 0 <= i < s.len() && self.keys_seq()[i] == k;
                assert(s[i].0@ == k);
            }
        }
        assert(self@.dom() =~= self.keys_seq().to_set());
    }

    pub fn new() -> (r: Table<V>)
        ensures
            r@ == Map::<Seq<char>, V>::empty(),
            r.keys_seq() == Seq::<Seq<char>>::empty(),
    {
        let r = Table { entries: Vec::new() };
        assert(r@ =~= Map::<Seq<char>, V>::empty());
        assert(r.keys_seq() =~= Seq::<Seq<char>>::empty());
        r
    }

    pub fn len(&self) -> (r: usize)
        ensures
            r == self.keys_seq().len(),
            r == self@.len(),
            self.keys_seq().no_duplicates(),
    {
        proof {
            use_type_invariant(self);
            self.lemma_keys();
            self.keys_seq().unique_seq_to_set();
        }
        self.entries.len()
    }

    /// Where `key` stands among the keys.
    fn position(&self, key: &str) -> (r: Option<usize>)
        ensures
            match r {
                Some(i) => i < self.entries@.len() && self.entries@[i as int].0@ == key@,
                None => !has_key(self.entries@, key@),
            },
    {
        let mut i: usize = 0;
        while i < self.entries.len()
            invariant
                i <= self.entries@.len(),
                forall|j: int| 0 <= j < i ==> self.entries@[j].0@ != key@,
            decreases self.entries@.len() - i,
        {
            if str_eq(self.entries[i].0.as_str(), key) {
                return Some(i);
            }
            i = i + 1;
        }
        None
    }

    pub fn contains_key(&self, key: &str) -> (r: bool)
        ensures
            r == self@.contains_key(key@),
    {
        self.position(key).is_some()
    }

    pub fn get(&self, key: &str) -> (r: Option<&V>)
        ensures
            match r {
                Some(v) => self@.contains_key(key@) && self@[key@] == *v,
                None => !self@.contains_key(key@),
            },
    {
        proof {
            use_type_invariant(self);
        }
        match self.position(key) {
            Some(i) => {
                proof {
                    lemma_lookup(self.entries@, i as int);
                }
                Some(&self.entries[i].1)
            },
            None => None,
        }
    }

    /// The `i`th key in order of insertion.
    pub fn key_at(&self, i: usize) -> (r: &String)
        requires
            i < self.keys_seq().len(),
        ensures
            r@ == self.keys_seq()[i as int],
    {
        &self.entries[i].0
    }

    /// The value under the `i`th key in order of insertion.
    pub fn value_at(&self, i: usize) -> (r: &V)
        requires
            i < self.keys_seq().len(),
        ensures
            self@.contains_key(self.keys_seq()[i as int]),
            *r == self@[self.keys_seq()[i as int]],
    {
        proof {
            use_type_invariant(self);
            lemma_lookup(self.entries@, i as int);
        }
        &self.entries[i].1
    }

    /// Binds `key` to `value`, replacing what it was bound to; a new key goes last.
    pub fn insert(&mut self, key: String, value: V)
        ensures
            final(self)@ == old(self)@.insert(key@, value),
            old(self)@.contains_key(key@) ==> final(self).keys_seq() == old(self).keys_seq(),
            !old(self)@.contains_key(key@) ==> final(self).keys_seq() == old(self).keys_seq().push(
                key@,
            ),
    {
        let mut taken = Table::new();
        std::mem::swap(self, &mut taken);
        *self = taken.inserted(key, value);
    }

    /// Binds every key of `other` to its value there, over what this table had.
    pub fn extend(&mut self, other: Table<V>)
        ensures
            final(self)@ == old(self)@.union_prefer_right(other@),
    {
        proof {
            use_type_invariant(&other);
        }
        let ghost all = other@;
        let ghost m0 = self@;
        let Table { entries } = other;
        let mut es = entries;
        assert(self@.union_prefer_right(map_of(es@)) =~= m0.union_prefer_right(all));
        while es.len() > 0
            invariant
                keys_of(es@).no_duplicates(),
                self@.union_prefer_right(map_of(es@)) == m0.union_prefer_right(all),
            decreases es@.len(),
        {
            proof {
                lemma_map_of_drop_last(es@);
            }
            let ghost s0 = es@;
            let ghost before = self@;
            match es.pop() {
                Some((k, v)) => {
                    proof {
                        assert(es@ == s0.drop_last());
                    }
                    let ghost kv = k@;
                    self.insert(k, v);
                    proof {
                        assert(self@.union_prefer_right(map_of(es@)) =~= before.union_prefer_right(
                            map_of(s0),
                        ));
                    }
                },
                None => {},
            }
        }
        assert(map_of(es@) =~= Map::<Seq<char>, V>::empty());
        assert(self@.union_prefer_right(map_of(es@)) =~= self@);
    }

    fn inserted(self, key: String, value: V) -> (r: Table<V>)
        ensures
            r@ == self@.insert(key@, value),
            self@.contains_key(key@) ==> r.keys_seq() == self.keys_seq(),
            !self@.contains_key(key@) ==> r.keys_seq() == self.keys_seq().push(key@),
    {
        proof {
            use_type_invariant(&self);
            self.lemma_keys();
        }
        let pos = self.position(key.as_str());
        let ghost s0 = self.entries@;
        let Table { mut entries } = self;
        let ghost k = key@;
        match pos {
            Some(i) => {
                let ghost v = value;
                entries.set(i, (key, value));
                proof {
                    let s1 = entries@;
                    assert(keys_of(s1) =~= keys_of(s0));
                    assert forall|kk: Seq<char>| #[trigger]
                        map_of(s1).contains_key(kk) == map_of(s0).insert(k, v).contains_key(kk) by {
                        if has_key(s0, kk) {
                            let j = choose|j: int| 0 <= j < s0.len() && #[trigger] s0[j].0@ == kk;
                            assert(s1[j].0@ == kk);
                        }
                        if has_key(s1, kk) {
                            let j = choose|j: int| 0 <= j < s1.len() && #[trigger] s1[j].0@ == kk;
                            assert(s0[j].0@ == kk);
                        }
                    }
                    assert forall|kk: Seq<char>| #[trigger]
                        map_of(s1).contains_key(kk) implies map_of(s1)[kk] == map_of(
                        s0,
                    ).insert(k, v)[kk] by {
                        let j = choose|j: int| 0 <= j < s1.len() && #[trigger] s1[j].0@ == kk;
                        lemma_lookup(s1, j);
                        if j != i {
                            assert(s0[j] == s1[j]);
                            assert(keys_of(s0)[j] != keys_of(s0)[i as int]);
                            lemma_lookup(s0, j);
                        } else {
                            assert(keys_of(s0)[j] == keys_of(s0)[i as int]);
                        }
                    }
                    assert(map_of(s1) =~= map_of(s0).insert(k, v));
                }
            },
            None => {
                let ghost v = value;
                entries.push((key, value));
                proof {
                    let s1 = entries@;
                    assert(keys_of(s1) =~= keys_of(s0).push(k));
                    assert(!keys_of(s0).contains(k)) by {
                        if keys_of(s0).contains(k) {
                            let j = choose|j: int| 0 <= j < s0.len() && keys_of(s0)[j] == k;
                            assert(s0[j].0@ == k);
                        }
                    }
                    assert(keys_of(s1).no_duplicates()) by {
                        assert forall|a: int, b: int|
                            0 <= a < keys_of(s1).len() && 0 <= b < keys_of(s1).len() && a != b
                            implies keys_of(s1)[a] != keys_of(s1)[b] by {
                            if a < s0.len() && b < s0.len() {
                                assert(keys_of(s0)[a] != keys_of(s0)[b]);
                            } else if a < s0.len() {
                                assert(keys_of(s0).contains(keys_of(s0)[a]));
                            } else if b < s0.len() {
                                assert(keys_of(s0).contains(keys_of(s0)[b]));
                            }
                        }
                    }
                    assert forall|kk: Seq<char>| #[trigger]
                        map_of(s1).contains_key(kk) == map_of(s0).insert(k, v).contains_key(kk) by {
                        if has_key(s0, kk) {
                            let j = choose|j: int| 0 <= j < s0.len() && #[trigger] s0[j].0@ == kk;
                            assert(s1[j].0@ == kk);
                        }
                        if kk == k {
                            assert(s1[s0.len() as int].0@ == kk);
                        }
                        if has_key(s1, kk) && kk != k {
                            let j = choose|j: int| 0 <= j < s1.len() && #[trigger] s1[j].0@ == kk;
                            assert(s0[j].0@ == kk);
                        }
                    }
                    assert forall|kk: Seq<char>| #[trigger]
                        map_of(s1).contains_key(kk) implies map_of(s1)[kk] == map_of(
                        s0,
                    ).insert(k, v)[kk] by {
                        let j = choose|j: int| 0 <= j < s1.len() && #[trigger] s1[j].0@ == kk;
                        lemma_lookup(s1, j);
                        if j < s0.len() {
                            assert(s0[j] == s1[j]);
                            lemma_lookup(s0, j);
                        }
                    }
                    assert(map_of(s1) =~= map_of(s0).insert(k, v));
                }
            },
        }
        Table { entries }
    }
}

} // verus!
