//! `StrMap`: a small map keyed by node ids, kept as two parallel vectors in
//! which no key occurs twice.

use vstd::prelude::*;
use crate::bytes::str_eq;

verus! {

pub open spec fn key_views(keys: Seq<String>) -> Seq<Seq<char>> {
    keys.map_values(|s: String| s@)
}

/// A map from strings to values, in the order keys were first inserted.
#[derive(Debug)]
pub struct StrMap<V> {
    keys: Vec<String>,
    vals: Vec<V>,
}

impl<V> StrMap<V> {
    #[verifier::type_invariant]
    pub closed spec fn wf(&self) -> bool {
        &&& self.keys@.len() == self.vals@.len()
        &&& key_views(self.keys@).no_duplicates()
    }

    /// The keys, in the order they were first inserted.
    pub closed spec fn spec_keys(&self) -> Seq<Seq<char>> {
        key_views(self.keys@)
    }

    /// The values, key by key.
    pub closed spec fn spec_vals(&self) -> Seq<V> {
        self.vals@
    }

    /// Each key with its value.
    pub open spec fn spec_map(&self) -> Map<Seq<char>, V> {
        Map::new(
            |k: Seq<char>| self.spec_keys().contains(k),
            |k: Seq<char>| self.spec_vals()[self.spec_keys().index_of(k)],
        )
    }

    /// What the invariant gives callers: keys and values pair up, no key
    /// twice, and the map holds the value beside each key.
    pub proof fn lemma_view(&self)
        requires
            self.wf(),
        ensures
            self.spec_keys().len() == self.spec_vals().len(),
            self.spec_keys().no_duplicates(),
            forall|i: int|
                0 <= i < self.spec_keys().len() ==> #[trigger] self.spec_map()[self.spec_keys()[i]]
                    == self.spec_vals()[i] && self.spec_map().contains_key(self.spec_keys()[i]),
            self.spec_map().dom() == self.spec_keys().to_set(),
    {
        let ks = self.spec_keys();
        assert forall|i: int| 0 <= i < ks.len() implies #[trigger] self.spec_map()[ks[i]]
            == self.spec_vals()[i] && self.spec_map().contains_key(ks[i]) by {
            assert(ks.contains(ks[i]));
            let j = ks.index_of(ks[i]);
            assert(ks[j] == ks[i]);
        }
        assert(self.spec_map().dom() =~= ks.to_set());
    }

    pub fn new() -> (m: Self)
        ensures
            m.spec_keys().len() == 0,
            m.spec_vals().len() == 0,
            m.spec_map() == Map::<Seq<char>, V>::empty(),
    {
        let m = StrMap { keys: Vec::new(), vals: Vec::new() };
        assert(m.spec_map() =~= Map::<Seq<char>, V>::empty());
        m
    }

    pub fn len(&self) -> (n: usize)
        ensures
            n == self.spec_keys().len(),
            n == self.spec_vals().len(),
    {
        proof {
            use_type_invariant(self);
        }
        self.keys.len()
    }

    /// The position of key `k`, if it is there.
    pub fn find(&self, k: &str) -> (r: Option<usize>)
        ensures
            match r {
                Some(i) => i < self.spec_keys().len() && self.spec_keys()[i as int] == k@,
                None => !self.spec_keys().contains(k@),
            },
    {
        proof {
            use_type_invariant(self);
        }
        let mut i: usize = 0;
        while i < self.keys.len()
            invariant
                i <= self.keys@.len(),
                forall|j: int| 0 <= j < i ==> key_views(self.keys@)[j] != k@,
            decreases self.keys@.len() - i,
        {
            if str_eq(self.keys[i].as_str(), k) {
                return Some(i);
            }
            i = i + 1;
        }
        None
    }

    pub fn key_at(&self, i: usize) -> (k: &String)
        requires
            i < self.spec_keys().len(),
        ensures
            k@ == self.spec_keys()[i as int],
    {
        &self.keys[i]
    }

    pub fn value_at(&self, i: usize) -> (v: &V)
        requires
            i < self.spec_vals().len(),
        ensures
            *v == self.spec_vals()[i as int],
    {
        &self.vals[i]
    }

    /// The value of key `k`, if it is there.
    pub fn get(&self, k: &str) -> (r: Option<&V>)
        ensures
            r is Some <==> self.spec_map().contains_key(k@),
            r matches Some(v) ==> *v == self.spec_map()[k@],
    {
        proof {
            use_type_invariant(self);
            self.lemma_view();
        }
        match self.find(k) {
            Some(i) => Some(&self.vals[i]),
            None => None,
        }
    }

    /// Replaces the value at position `i`.
    pub fn set_value(&mut self, i: usize, v: V)
        requires
            i < old(self).spec_vals().len(),
        ensures
            final(self).spec_keys() == old(self).spec_keys(),
            final(self).spec_vals() == old(self).spec_vals().update(i as int, v),
            final(self).spec_map() == old(self).spec_map().insert(old(self).spec_keys()[i as int], v),
    {
        proof {
            use_type_invariant(&*self);
            self.lemma_view();
        }
        let ghost before = *self;
        let mut taken = StrMap { keys: Vec::new(), vals: Vec::new() };
        core::mem::swap(&mut taken, self);
        let StrMap { keys, mut vals } = taken;
        vals.set(i, v);
        *self = StrMap { keys, vals };
        proof {
            use_type_invariant(&*self);
            self.lemma_view();
            assert(self.spec_map() =~= before.spec_map().insert(before.spec_keys()[i as int], v));
        }
    }

    /// Sets key `k` to `v`: in place where `k` is there, else at the end.
    pub fn insert(&mut self, k: &str, v: V)
        ensures
            final(self).spec_map() == old(self).spec_map().insert(k@, v),
            old(self).spec_keys().contains(k@) ==> final(self).spec_keys() == old(self).spec_keys(),
            !old(self).spec_keys().contains(k@) ==> final(self).spec_keys() == old(self).spec_keys().push(k@),
            !old(self).spec_keys().contains(k@) ==> final(self).spec_vals() == old(self).spec_vals().push(v),
            old(self).spec_keys().contains(k@) ==> final(self).spec_vals().len() == old(self).spec_vals().len(),
    {
        proof {
            use_type_invariant(&*self);
            self.lemma_view();
        }
        match self.find(k) {
            Some(i) => {
                self.set_value(i, v);
            },
            None => {
                let ghost before = *self;
                let key = k.to_owned();
                let mut taken = StrMap { keys: Vec::new(), vals: Vec::new() };
                core::mem::swap(&mut taken, self);
                let StrMap { mut keys, mut vals } = taken;
                keys.push(key);
                vals.push(v);
                assert(key_views(keys@) =~= key_views(before.keys@).push(k@));
                *self = StrMap { keys, vals };
                proof {
                    use_type_invariant(&*self);
                    self.lemma_view();
                    before.lemma_view();
                    let ka = self.spec_keys();
                    let kb = before.spec_keys();
                    assert forall|x: Seq<char>| #[trigger] self.spec_map().contains_key(x) <==> before.spec_map().insert(k@, v).contains_key(x) by {
                        if kb.contains(x) {
                            let j = choose|j: int| 0 <= j < kb.len() && kb[j] == x;
                            assert(ka[j] == x);
                        }
                        if x == k@ {
                            assert(ka[kb.len() as int] == x);
                        }
                    }
                    assert forall|x: Seq<char>| #[trigger] self.spec_map().contains_key(x) implies self.spec_map()[x] == before.spec_map().insert(k@, v)[x] by {
                        if x == k@ {
                            assert(ka[kb.len() as int] == x);
                        } else {
                            let j = choose|j: int| 0 <= j < ka.len() && ka[j] == x;
                            assert(j < kb.len());
                            assert(kb[j] == x);
                        }
                    }
                    assert(self.spec_map() =~= before.spec_map().insert(k@, v));
                }
            },
        }
    }

    /// Drops key `k` and its value, where it is there.
    pub fn remove(&mut self, k: &str)
        ensures
            final(self).spec_map() == old(self).spec_map().remove(k@),
    {
        proof {
            use_type_invariant(&*self);
            self.lemma_view();
        }
        match self.find(k) {
            Some(i) => {
                let ghost before = *self;
                let mut taken = StrMap { keys: Vec::new(), vals: Vec::new() };
                core::mem::swap(&mut taken, self);
                let StrMap { mut keys, mut vals } = taken;
                keys.remove(i);
                vals.remove(i);
                let ghost kb = key_views(before.keys@);
                assert(key_views(keys@) =~= kb.remove(i as int));
                *self = StrMap { keys, vals };
                proof {
                    use_type_invariant(&*self);
                    self.lemma_view();
                    before.lemma_view();
                    let ka = key_views(self.keys@);
                    assert forall|x: Seq<char>| #[trigger] self.spec_map().contains_key(x) <==> before.spec_map().remove(k@).contains_key(x) by {
                        if ka.contains(x) {
                            let j = choose|j: int| 0 <= j < ka.len() && ka[j] == x;
                            if j < i {
                                assert(kb[j] == x);
                            } else {
                                assert(kb[j + 1] == x);
                            }
                        }
                        if kb.contains(x) && x != k@ {
                            let j = choose|j: int| 0 <= j < kb.len() && kb[j] == x;
                            if j < i {
                                assert(ka[j] == x);
                            } else {
                                assert(j != i);
                                assert(ka[j - 1] == x);
                            }
                        }
                    }
                    assert forall|x: Seq<char>| #[trigger] self.spec_map().contains_key(x) implies self.spec_map()[x] == before.spec_map()[x] by {
                        let j = ka.index_of(x);
                        assert(ka[j] == x);
                        if j < i {
                            assert(kb[j] == x);
                        } else {
                            assert(kb[j + 1] == x);
                        }
                    }
                    assert(self.spec_map() =~= before.spec_map().remove(k@));
                }
            },
            None => {
                proof {
                    assert(self.spec_map() =~= self.spec_map().remove(k@));
                }
            },
        }
    }
}

} // verus!
