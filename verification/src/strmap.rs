//! A small map keyed by strings, kept as a list of distinct keys in the order
//! they were first inserted.
use vstd::prelude::*;
use crate::text::str_eq;

verus! {

/// A map from strings to values; each key occurs once.
#[derive(Debug)]
pub struct StrMap<T> {
    entries: Vec<(String, T)>,
}

impl<T> StrMap<T> {
    #[verifier::type_invariant]
    spec fn keys_distinct(self) -> bool {
        forall|i: int, j: int|
            0 <= i < j < self.entries@.len() ==> (#[trigger] self.entries@[i]).0@ != (
            #[trigger] self.entries@[j]).0@
    }

    /// The keys in the order they were first inserted.
    pub closed spec fn key_seq(self) -> Seq<Seq<char>> {
        Seq::new(self.entries@.len(), |i: int| self.entries@[i].0@)
    }

    /// The map that this holds.
    pub closed spec fn map(self) -> Map<Seq<char>, T> {
        Map::new(
            |k: Seq<char>| exists|i: int| 0 <= i < self.entries@.len() && self.entries@[i].0@ == k,
            |k: Seq<char>|
                self.entries@[choose|i: int| 0 <= i < self.entries@.len() && self.entries@[i].0@ == k].1,
        )
    }

    proof fn lemma_keys(self)
        requires
            self.keys_distinct(),
        ensures
            self.key_seq().no_duplicates(),
            forall|k: Seq<char>| self.map().contains_key(k) <==> self.key_seq().contains(k),
    {
        assert forall|k: Seq<char>| self.map().contains_key(k) <==> self.key_seq().contains(k) by {
            if self.map().contains_key(k) {
                let i = choose|i: int| 0 <= i < self.entries@.len() && self.entries@[i].0@ == k;
                assert(self.key_seq()[i] == k);
            }
            if self.key_seq().contains(k) {
                let i = choose|i: int| 0 <= i < self.key_seq().len() && self.key_seq()[i] == k;
                assert(self.entries@[i].0@ == k);
            }
        }
    }

    /// An empty map.
    pub fn new() -> (r: Self)
        ensures
            r.map() == Map::<Seq<char>, T>::empty(),
            r.key_seq() == Seq::<Seq<char>>::empty(),
    {
        let r = StrMap { entries: Vec::new() };
        assert(r.map() =~= Map::<Seq<char>, T>::empty());
        assert(r.key_seq() =~= Seq::<Seq<char>>::empty());
        r
    }

    /// The number of keys.
    pub fn len(&self) -> (r: usize)
        ensures
            r == self.key_seq().len(),
    {
        self.entries.len()
    }

    fn find(&self, key: &str) -> (r: Option<usize>)
        ensures
            match r {
                Some(i) => i < self.entries@.len() && self.entries@[i as int].0@ == key@,
                None => forall|i: int| 0 <= i < self.entries@.len() ==> self.entries@[i].0@ != key@,
            },
    {
        let mut i: usize = 0;
        while i < self.entries.len()
            invariant
                i <= self.entries@.len(),
                forall|j: int| 0 <= j < i ==> self.entries@[j].0@ != key@,
            decreases self.entries@.len() - i,
        {
            if str_eq(self.entries[i].0.as_str(), key) {
                return Some(i);
            }
            i = i + 1;
        }
        None
    }

    proof fn lemma_at(self, i: int)
        requires
            self.keys_distinct(),
            0 <= i < self.entries@.len(),
        ensures
            self.map().contains_key(self.entries@[i].0@),
            self.map()[self.entries@[i].0@] == self.entries@[i].1,
    {
        let k = self.entries@[i].0@;
        let j = choose|j: int| 0 <= j < self.entries@.len() && self.entries@[j].0@ == k;
        assert(i == j);
    }

    /// The value stored under `key`, if any.
    pub fn get(&self, key: &str) -> (r: Option<&T>)
        ensures
            match r {
                Some(v) => self.map().contains_key(key@) && *v == self.map()[key@],
                None => !self.map().contains_key(key@),
            },
    {
        proof {
            use_type_invariant(self);
        }
        match self.find(key) {
            Some(i) => {
                proof {
                    self.lemma_at(i as int);
                }
                Some(&self.entries[i].1)
            },
            None => None,
        }
    }

    /// Whether `key` has a value.
    pub fn contains_key(&self, key: &str) -> (r: bool)
        ensures
            r == self.map().contains_key(key@),
    {
        self.find(key).is_some()
    }

    /// The key and value at position `i` of the insertion order.
    pub fn entry_at(&self, i: usize) -> (r: (&String, &T))
        requires
            i < self.key_seq().len(),
        ensures
            r.0@ == self.key_seq()[i as int],
            self.map().contains_key(r.0@),
            *r.1 == self.map()[r.0@],
    {
        proof {
            use_type_invariant(self);
            self.lemma_at(i as int);
        }
        (&self.entries[i].0, &self.entries[i].1)
    }

    /// The keys in insertion order; each key of the map occurs once.
    pub fn keys(&self) -> (r: Vec<String>)
        ensures
            crate::text::strs_view(r@) == self.key_seq(),
            self.key_seq().no_duplicates(),
            forall|k: Seq<char>| self.map().contains_key(k) <==> self.key_seq().contains(k),
    {
        proof {
            use_type_invariant(self);
            self.lemma_keys();
        }
        let mut out: Vec<String> = Vec::new();
        let mut i: usize = 0;
        while i < self.entries.len()
            invariant
                i <= self.entries@.len(),
                crate::text::strs_view(out@) == self.key_seq().take(i as int),
            decreases self.entries@.len() - i,
        {
            let ghost before = out@;
            out.push(crate::text::clone_string(&self.entries[i].0));
            proof {
                assert(crate::text::strs_view(out@) =~= crate::text::strs_view(before).push(self.entries@[i as int].0@));
                assert(self.key_seq().take(i + 1) =~= self.key_seq().take(i as int).push(self.entries@[i as int].0@));
            }
            i = i + 1;
        }
        proof {
            assert(self.key_seq().take(i as int) =~= self.key_seq());
        }
        out
    }

    /// Stores `value` under `key`, replacing any earlier value; a new key
    /// goes last in the insertion order.
    pub fn insert(&mut self, key: String, value: T)
        ensures
            final(self).map() == old(self).map().insert(key@, value),
            final(self).map().contains_key(key@),
            final(self).map()[key@] == value,
            forall|k: Seq<char>|
                k != key@ ==> (#[trigger] final(self).map().contains_key(k) == old(self).map().contains_key(k)),
            forall|k: Seq<char>|
                k != key@ && #[trigger] old(self).map().contains_key(k) ==> final(self).map()[k] == old(self).map()[k],
            old(self).map().contains_key(key@) ==> final(self).key_seq() == old(self).key_seq(),
            !old(self).map().contains_key(key@) ==> final(self).key_seq() == old(self).key_seq().push(
                key@,
            ),
            final(self).key_seq() == if old(self).key_seq().contains(key@) {
                old(self).key_seq()
            } else {
                old(self).key_seq().push(key@)
            },
    {
        proof {
            use_type_invariant(&*self);
        }
        let ghost old_map = self.map();
        let ghost old_keys = self.key_seq();
        let ghost old_entries = self.entries@;
        match self.find(key.as_str()) {
            Some(i) => {
                let ghost k = key@;
                proof {
                    assert(old_keys[i as int] == k);
                    assert(old_keys.contains(k));
                }
                let mut entries = Vec::new();
                std::mem::swap(&mut entries, &mut self.entries);
                entries.set(i, (key, value));
                proof {
                    assert forall|a: int, b: int|
                        0 <= a < b < entries@.len() implies (#[trigger] entries@[a]).0@ != (
                        #[trigger] entries@[b]).0@ by {
                        assert(old_entries[a].0@ != old_entries[b].0@);
                    }
                }
                self.entries = entries;
                proof {
                    assert(self.key_seq() =~= old_keys);
                    assert forall|kk: Seq<char>| #[trigger] self.map().contains_key(kk) <==> old_map.insert(k, value).contains_key(kk) by {
                        if self.map().contains_key(kk) {
                            let j = choose|j: int| 0 <= j < self.entries@.len() && self.entries@[j].0@ == kk;
                            if j != i {
                                assert(old_entries[j].0@ == kk);
                            }
                        }
                        if old_map.contains_key(kk) {
                            let j = choose|j: int| 0 <= j < old_entries.len() && old_entries[j].0@ == kk;
                            if j != i {
                                assert(self.entries@[j].0@ == kk);
                            } else {
                                assert(self.entries@[i as int].0@ == kk);
                            }
                        }
                        if kk == k {
                            assert(self.entries@[i as int].0@ == kk);
                        }
                    }
                    assert forall|kk: Seq<char>| #[trigger] self.map().contains_key(kk) implies self.map()[kk] == old_map.insert(k, value)[kk] by {
                        let j = choose|j: int| 0 <= j < self.entries@.len() && self.entries@[j].0@ == kk;
                        self.lemma_at(j);
                        if j != i {
                            assert(old_entries[j].0@ == kk);
                            assert(old_entries[j].0@ == kk);
                            assert(old_entries[j] == self.entries@[j]);
                            let jj = choose|jj: int| 0 <= jj < old_entries.len() && old_entries[jj].0@ == kk;
                            assert(jj == j);
                        }
                    }
                    assert(self.map() =~= old_map.insert(k, value));
                }
            },
            None => {
                let ghost k = key@;
                proof {
                    assert(!old_keys.contains(k)) by {
                        if old_keys.contains(k) {
                            let j = choose|j: int| 0 <= j < old_keys.len() && old_keys[j] == k;
                            assert(old_entries[j].0@ == k);
                        }
                    }
                }
                let mut entries = Vec::new();
                std::mem::swap(&mut entries, &mut self.entries);
                entries.push((key, value));
                proof {
                    let n = old_entries.len();
                    assert forall|a: int, b: int|
                        0 <= a < b < entries@.len() implies (#[trigger] entries@[a]).0@ != (
                        #[trigger] entries@[b]).0@ by {
                        if b < n {
                            assert(old_entries[a].0@ != old_entries[b].0@);
                        } else {
                            assert(old_entries[a].0@ != k);
                        }
                    }
                }
                self.entries = entries;
                proof {
                    let n = old_entries.len();
                    assert(self.key_seq() =~= old_keys.push(k));
                    assert forall|kk: Seq<char>| #[trigger] self.map().contains_key(kk) <==> old_map.insert(k, value).contains_key(kk) by {
                        if self.map().contains_key(kk) {
                            let j = choose|j: int| 0 <= j < self.entries@.len() && self.entries@[j].0@ == kk;
                            if j < n {
                                assert(old_entries[j].0@ == kk);
                            }
                        }
                        if old_map.contains_key(kk) {
                            let j = choose|j: int| 0 <= j < old_entries.len() && old_entries[j].0@ == kk;
                            assert(self.entries@[j].0@ == kk);
                        }
                        if kk == k {
                            assert(self.entries@[n as int].0@ == kk);
                        }
                    }
                    assert forall|kk: Seq<char>| #[trigger] self.map().contains_key(kk) implies self.map()[kk] == old_map.insert(k, value)[kk] by {
                        let j = choose|j: int| 0 <= j < self.entries@.len() && self.entries@[j].0@ == kk;
                        self.lemma_at(j);
                        if j < n {
                            assert(old_entries[j].0@ == kk);
                            assert(old_entries[j] == self.entries@[j]);
                            let jj = choose|jj: int| 0 <= jj < old_entries.len() && old_entries[jj].0@ == kk;
                            assert(jj == j);
                        }
                    }
                    assert(self.map() =~= old_map.insert(k, value));
                }
            },
        }
    }
}

} // verus!
