//! Values kept by the id of the player they belong to, the id taken as it
//! was written (so "3" and "03" are two ids); a value put for an id that is
//! already there replaces the earlier one.

use crate::text::bytes_eq;
use vstd::prelude::*;

verus! {

/// Whether the id `k` has an entry in `s`.
pub open spec fn has_id<V>(s: Seq<(Seq<u8>, V)>, k: Seq<u8>) -> bool {
    exists|i: int| 0 <= i < s.len() && s[i].0 == k
}

/// The value of the entry of `s` for the id `k`.
pub open spec fn value_of<V>(s: Seq<(Seq<u8>, V)>, k: Seq<u8>) -> V {
    s[choose|i: int| 0 <= i < s.len() && s[i].0 == k].1
}

/// The entries of `s` as a map from id to value.
pub open spec fn id_map<V>(s: Seq<(Seq<u8>, V)>) -> Map<Seq<u8>, V> {
    Map::new(|k: Seq<u8>| has_id(s, k), |k: Seq<u8>| value_of(s, k))
}

/// Whether no id has two entries in `s`.
pub open spec fn distinct_ids<V>(s: Seq<(Seq<u8>, V)>) -> bool {
    forall|i: int, j: int| 0 <= i < j < s.len() ==> s[i].0 != s[j].0
}

/// The value of an id is that of its entry.
pub proof fn lemma_value_of_entry<V>(s: Seq<(Seq<u8>, V)>, i: int)
    requires
        distinct_ids(s),
        0 <= i < s.len(),
    ensures
        has_id(s, s[i].0),
        value_of(s, s[i].0) == s[i].1,
        id_map(s).contains_key(s[i].0),
        id_map(s)[s[i].0] == s[i].1,
{
    let k = s[i].0;
    assert(0 <= i < s.len() && s[i].0 == k);
    let j = choose|j: int| 0 <= j < s.len() && s[j].0 == k;
    if j != i {
        if j < i {
            assert(s[j].0 != s[i].0);
        } else {
            assert(s[i].0 != s[j].0);
        }
    }
}

/// Values kept by player id, each id once.
pub struct IdMap<V> {
    entries: Vec<(Vec<u8>, V)>,
}

impl<V> IdMap<V> {
    /// The entries, each id (as its bytes) with its value, in the order in
    /// which the ids first came.
    pub closed spec fn entries(&self) -> Seq<(Seq<u8>, V)> {
        self.entries@.map_values(|e: (Vec<u8>, V)| (e.0@, e.1))
    }

    /// Each id has one entry.
    pub open spec fn well_formed(&self) -> bool {
        distinct_ids(self.entries())
    }

    /// The map from id to value.
    pub open spec fn map(&self) -> Map<Seq<u8>, V> {
        id_map(self.entries())
    }

    /// A map with no id.
    pub fn new() -> (m: Self)
        ensures
            m.entries() == Seq::<(Seq<u8>, V)>::empty(),
            m.well_formed(),
            m.map() == Map::<Seq<u8>, V>::empty(),
    {
        let m = IdMap { entries: Vec::new() };
        assert(m.entries() =~= Seq::<(Seq<u8>, V)>::empty());
        assert(m.map() =~= Map::<Seq<u8>, V>::empty());
        m
    }

    /// The number of ids.
    pub fn len(&self) -> (n: usize)
        ensures
            n == self.entries().len(),
    {
        self.entries.len()
    }

    /// The entry at position `i`: its id and its value.
    pub fn entry(&self, i: usize) -> (e: (&Vec<u8>, &V))
        requires
            i < self.entries().len(),
        ensures
            e.0@ == self.entries()[i as int].0,
            *e.1 == self.entries()[i as int].1,
    {
        let e = &self.entries[i];
        (&e.0, &e.1)
    }

    /// The position of the entry of `id`, where there is one.
    fn find(&self, id: &[u8]) -> (pos: Option<usize>)
        ensures
            match pos {
                Some(i) => i < self.entries().len() && self.entries()[i as int].0 == id@,
                None => !has_id(self.entries(), id@),
            },
    {
        let mut i: usize = 0;
        while i < self.entries.len()
            invariant
                i <= self.entries@.len(),
                forall|j: int| 0 <= j < i ==> self.entries()[j].0 != id@,
            decreases self.entries@.len() - i,
        {
            if bytes_eq(self.entries[i].0.as_slice(), id) {
                return Some(i);
            }
            i = i + 1;
        }
        None
    }

    /// The value of `id`, where it has one.
    pub fn get(&self, id: &[u8]) -> (value: Option<&V>)
        requires
            self.well_formed(),
        ensures
            match value {
                Some(v) => self.map().contains_key(id@) && *v == self.map()[id@],
                None => !self.map().contains_key(id@),
            },
    {
        match self.find(id) {
            Some(i) => {
                proof {
                    lemma_value_of_entry(self.entries(), i as int);
                }
                Some(&self.entries[i].1)
            },
            None => None,
        }
    }

    /// Puts `value` for `id`, in place of its earlier value if it had one.
    pub fn insert(&mut self, id: Vec<u8>, value: V)
        requires
            old(self).well_formed(),
        ensures
            final(self).well_formed(),
            final(self).map() == old(self).map().insert(id@, value),
            // a new id comes last; a known one keeps its place
            has_id(old(self).entries(), id@) ==> exists|i: int|
                0 <= i < old(self).entries().len() && old(self).entries()[i].0 == id@
                    && final(self).entries() == old(self).entries().update(i, (id@, value)),
            !has_id(old(self).entries(), id@) ==> final(self).entries() == old(self).entries().push(
                (id@, value),
            ),
    {
        let ghost s = self.entries();
        let ghost k = id@;
        match self.find(id.as_slice()) {
            Some(i) => {
                let ghost v = value;
                self.entries.set(i, (id, value));
                let ghost t = self.entries();
                assert(t =~= s.update(i as int, (k, v)));
                assert forall|a: int, b: int| 0 <= a < b < t.len() implies t[a].0 != t[b].0 by {
                    assert(t[a].0 == s[a].0 && t[b].0 == s[b].0);
                }
                assert forall|x: Seq<u8>| has_id(t, x) == has_id(s, x) by {
                    if has_id(t, x) {
                        let j = choose|j: int| 0 <= j < t.len() && t[j].0 == x;
                        assert(s[j].0 == x);
                    }
                    if has_id(s, x) {
                        let j = choose|j: int| 0 <= j < s.len() && s[j].0 == x;
                        assert(t[j].0 == x);
                    }
                }
                assert forall|x: Seq<u8>| has_id(t, x) implies value_of(t, x) == (if x == k {
                    v
                } else {
                    value_of(s, x)
                }) by {
                    let j = choose|j: int| 0 <= j < t.len() && t[j].0 == x;
                    lemma_value_of_entry(t, j);
                    lemma_value_of_entry(s, j);
                    if x != k {
                        assert(j != i);
                    } else {
                        if j != i {
                            assert(t[j].0 != t[i as int].0 || j == i);
                        }
                    }
                }
                assert(self.map() =~= old(self).map().insert(k, v));
            },
            None => {
                let ghost v = value;
                self.entries.push((id, value));
                let ghost t = self.entries();
                assert(t =~= s.push((k, v)));
                assert forall|a: int, b: int| 0 <= a < b < t.len() implies t[a].0 != t[b].0 by {
                    if b == t.len() - 1 {
                        assert(s[a].0 == t[a].0);
                    }
                }
                assert forall|x: Seq<u8>| has_id(t, x) == (has_id(s, x) || x == k) by {
                    if has_id(t, x) {
                        let j = choose|j: int| 0 <= j < t.len() && t[j].0 == x;
                        if j < s.len() {
                            assert(s[j].0 == x);
                        }
                    }
                    if has_id(s, x) {
                        let j = choose|j: int| 0 <= j < s.len() && s[j].0 == x;
                        assert(t[j].0 == x);
                    }
                    if x == k {
                        assert(t[s.len() as int].0 == x);
                    }
                }
                assert forall|x: Seq<u8>| has_id(t, x) implies value_of(t, x) == (if x == k {
                    v
                } else {
                    value_of(s, x)
                }) by {
                    let j = choose|j: int| 0 <= j < t.len() && t[j].0 == x;
                    lemma_value_of_entry(t, j);
                    if j < s.len() {
                        lemma_value_of_entry(s, j);
                    }
                }
                assert(self.map() =~= old(self).map().insert(k, v));
            },
        }
    }

    /// Takes the entry of `id` out, where it has one.
    pub fn remove(&mut self, id: &[u8])
        requires
            old(self).well_formed(),
        ensures
            final(self).well_formed(),
            final(self).map() == old(self).map().remove(id@),
            // the other entries keep their order
            has_id(old(self).entries(), id@) ==> exists|i: int|
                0 <= i < old(self).entries().len() && old(self).entries()[i].0 == id@
                    && final(self).entries() == old(self).entries().remove(i),
            !has_id(old(self).entries(), id@) ==> final(self).entries() == old(self).entries(),
    {
        let ghost s = self.entries();
        let ghost k = id@;
        match self.find(id) {
            Some(i) => {
                self.entries.remove(i);
                let ghost t = self.entries();
                assert(t =~= s.remove(i as int));
                assert forall|a: int, b: int| 0 <= a < b < t.len() implies t[a].0 != t[b].0 by {
                    let a2 = if a < i { a } else { a + 1 };
                    let b2 = if b < i { b } else { b + 1 };
                    assert(t[a] == s[a2] && t[b] == s[b2]);
                }
                assert forall|x: Seq<u8>| has_id(t, x) == (has_id(s, x) && x != k) by {
                    if has_id(t, x) {
                        let j = choose|j: int| 0 <= j < t.len() && t[j].0 == x;
                        let j2 = if j < i { j } else { j + 1 };
                        assert(s[j2].0 == x);
                        assert(j2 != i);
                        if j2 < i {
                            assert(s[j2].0 != s[i as int].0);
                        } else {
                            assert(s[i as int].0 != s[j2].0);
                        }
                    }
                    if has_id(s, x) && x != k {
                        let j = choose|j: int| 0 <= j < s.len() && s[j].0 == x;
                        assert(j != i);
                        let j2 = if j < i { j } else { j - 1 };
                        assert(t[j2].0 == x);
                    }
                }
                assert forall|x: Seq<u8>| has_id(t, x) implies value_of(t, x) == value_of(s, x) by {
                    let j = choose|j: int| 0 <= j < t.len() && t[j].0 == x;
                    lemma_value_of_entry(t, j);
                    let j2 = if j < i { j } else { j + 1 };
                    lemma_value_of_entry(s, j2);
                }
                assert(self.map() =~= old(self).map().remove(k));
            },
            None => {
                assert(self.map() =~= old(self).map().remove(k));
            },
        }
    }
}

} // verus!
