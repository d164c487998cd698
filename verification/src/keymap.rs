//! Small maps keyed by text: a node id, or a command path. Entries keep the
//! order in which they were first put in; a key occurs at most once.

use vstd::prelude::*;
use crate::node::strs;

verus! {

/// A key made of text, compared by its contents.
pub trait Key: Sized {
    spec fn key(&self) -> Seq<Seq<char>>;

    fn same(&self, other: &Self) -> (r: bool)
        ensures
            r == (self.key() == other.key()),
    ;
}

impl Key for String {
    open spec fn key(&self) -> Seq<Seq<char>> {
        seq![self@]
    }

    fn same(&self, other: &Self) -> (r: bool) {
        let r = *self == *other;
        proof {
            if !r {
                assert(self.key()[0] != other.key()[0]);
            }
        }
        r
    }
}

impl Key for Vec<String> {
    open spec fn key(&self) -> Seq<Seq<char>> {
        strs(self@)
    }

    fn same(&self, other: &Self) -> (r: bool) {
        if self.len() != other.len() {
            assert(self.key().len() != other.key().len());
            return false;
        }
        let mut i: usize = 0;
        while i < self.len()
            invariant
                i <= self@.len(),
                self@.len() == other@.len(),
                forall|k: int| 0 <= k < i ==> #[trigger] self@[k]@ == other@[k]@,
            decreases self@.len() - i,
        {
            if self[i] != other[i] {
                assert(self.key()[i as int] != other.key()[i as int]);
                return false;
            }
            i += 1;
        }
        assert(self.key() =~= other.key());
        true
    }
}

pub struct KeyMap<K, T> {
    entries: Vec<(K, T)>,
}

impl<K: Key, T> KeyMap<K, T> {
    /// No key occurs twice.
    pub closed spec fn wf(&self) -> bool {
        forall|i: int, j: int|
            0 <= i < j < self.entries@.len() ==> #[trigger] self.entries@[i].0.key() != #[trigger] self.entries@[j].0.key()
    }

    pub closed spec fn has(&self, k: Seq<Seq<char>>) -> bool {
        exists|i: int| 0 <= i < self.entries@.len() && #[trigger] self.entries@[i].0.key() == k
    }

    pub closed spec fn at(&self, k: Seq<Seq<char>>) -> T {
        self.entries@[choose|i: int| 0 <= i < self.entries@.len() && #[trigger] self.entries@[i].0.key() == k].1
    }

    /// The map this is.
    pub closed spec fn map(&self) -> Map<Seq<Seq<char>>, T> {
        Map::new(|k: Seq<Seq<char>>| self.has(k), |k: Seq<Seq<char>>| self.at(k))
    }

    /// How many keys there are.
    pub closed spec fn size(&self) -> nat {
        self.entries@.len()
    }

    pub proof fn lemma_size(&self)
        requires
            self.wf(),
        ensures
            self.map().dom().finite(),
            self.map().dom().len() == self.size(),
    {
        self.lemma_size_upto(self.entries@.len() as int);
        assert(self.map().dom() =~= self.keys_upto(self.entries@.len() as int));
    }

    closed spec fn keys_upto(&self, n: int) -> Set<Seq<Seq<char>>> {
        Set::new(|k: Seq<Seq<char>>| exists|i: int| 0 <= i < n && #[trigger] self.entries@[i].0.key() == k)
    }

    proof fn lemma_size_upto(&self, n: int)
        requires
            self.wf(),
            0 <= n <= self.entries@.len(),
        ensures
            self.keys_upto(n).finite(),
            self.keys_upto(n).len() == n,
        decreases n,
    {
        if n == 0 {
            assert(self.keys_upto(0) =~= Set::empty());
        } else {
            self.lemma_size_upto(n - 1);
            let k = self.entries@[n - 1].0.key();
            assert(self.keys_upto(n) =~= self.keys_upto(n - 1).insert(k));
            assert(!self.keys_upto(n - 1).contains(k));
        }
    }

    pub fn new() -> (r: Self)
        ensures
            r.wf(),
            r.map() == Map::<Seq<Seq<char>>, T>::empty(),
            r.size() == 0,
    {
        let r = KeyMap { entries: Vec::new() };
        assert(r.map() =~= Map::<Seq<Seq<char>>, T>::empty());
        r
    }

    fn find(&self, k: &K) -> (r: Option<usize>)
        requires
            self.wf(),
        ensures
            match r {
                Some(i) => i < self.entries@.len() && self.entries@[i as int].0.key() == k.key(),
                None => !self.has(k.key()),
            },
    {
        let mut i: usize = 0;
        while i < self.entries.len()
            invariant
                i <= self.entries@.len(),
                forall|j: int| 0 <= j < i ==> #[trigger] self.entries@[j].0.key() != k.key(),
            decreases self.entries@.len() - i,
        {
            if self.entries[i].0.same(k) {
                return Some(i);
            }
            i += 1;
        }
        None
    }

    proof fn lemma_at(&self, i: int)
        requires
            self.wf(),
            0 <= i < self.entries@.len(),
        ensures
            self.has(self.entries@[i].0.key()),
            self.at(self.entries@[i].0.key()) == self.entries@[i].1,
    {
        let k = self.entries@[i].0.key();
        let j = choose|j: int| 0 <= j < self.entries@.len() && #[trigger] self.entries@[j].0.key() == k;
        if j < i {
            assert(self.entries@[j].0.key() != self.entries@[i].0.key());
        } else if i < j {
            assert(self.entries@[i].0.key() != self.entries@[j].0.key());
        }
    }

    pub fn contains(&self, k: &K) -> (r: bool)
        requires
            self.wf(),
        ensures
            r == self.map().contains_key(k.key()),
    {
        self.find(k).is_some()
    }

    pub fn get(&self, k: &K) -> (r: Option<&T>)
        requires
            self.wf(),
        ensures
            match r {
                Some(v) => self.map().contains_key(k.key()) && *v == self.map()[k.key()],
                None => !self.map().contains_key(k.key()),
            },
    {
        match self.find(k) {
            Some(i) => {
                proof {
                    self.lemma_at(i as int);
                }
                Some(&self.entries[i].1)
            },
            None => None,
        }
    }

    /// Put `v` under `k`, in place of what was there.
    pub fn insert(&mut self, k: K, v: T)
        requires
            old(self).wf(),
        ensures
            final(self).wf(),
            final(self).map() == old(self).map().insert(k.key(), v),
            final(self).size() == old(self).size() + (if old(self).map().contains_key(k.key()) { 0int } else { 1int }),
    {
        let ghost kk = k.key();
        let ghost m0 = self.map();
        match self.find(&k) {
            Some(i) => {
                proof {
                    self.lemma_at(i as int);
                }
                let ghost e0 = self.entries@;
                self.entries.set(i, (k, v));
                proof {
                    let e = self.entries@;
                    assert forall|a: int, b: int| 0 <= a < b < e.len() implies #[trigger] e[a].0.key() != #[trigger] e[b].0.key() by {
                        assert(e0[a].0.key() != e0[b].0.key());
                    }
                    assert forall|q: Seq<Seq<char>>| #[trigger] self.map().contains_key(q) == m0.insert(kk, v).contains_key(q) by {
                        if self.has(q) {
                            let j = choose|j: int| 0 <= j < e.len() && #[trigger] e[j].0.key() == q;
                            if j != i {
                                assert(e0[j].0.key() == q);
                            }
                        }
                        if m0.contains_key(q) && q != kk {
                            let j = choose|j: int| 0 <= j < e0.len() && #[trigger] e0[j].0.key() == q;
                            assert(e[j].0.key() == q);
                        }
                        if q == kk {
                            assert(e[i as int].0.key() == q);
                        }
                    }
                    assert forall|q: Seq<Seq<char>>| #[trigger] self.map().contains_key(q) implies self.map()[q] == m0.insert(kk, v)[q] by {
                        let j = choose|j: int| 0 <= j < e.len() && #[trigger] e[j].0.key() == q;
                        self.lemma_at(j);
                        if j != i {
                            assert(e0[j] == e[j]);
                            assert(old(self).entries@[j].0.key() == q);
                            old(self).lemma_at(j);
                        }
                    }
                    assert(self.map() =~= m0.insert(kk, v));
                }
            },
            None => {
                let ghost e0 = self.entries@;
                self.entries.push((k, v));
                proof {
                    let e = self.entries@;
                    let n = e0.len() as int;
                    assert forall|a: int, b: int| 0 <= a < b < e.len() implies #[trigger] e[a].0.key() != #[trigger] e[b].0.key() by {
                        if b == n {
                            assert(e0[a].0.key() != kk);
                        } else {
                            assert(e0[a].0.key() != e0[b].0.key());
                        }
                    }
                    assert forall|q: Seq<Seq<char>>| #[trigger] self.map().contains_key(q) == m0.insert(kk, v).contains_key(q) by {
                        if self.has(q) {
                            let j = choose|j: int| 0 <= j < e.len() && #[trigger] e[j].0.key() == q;
                            if j != n {
                                assert(e0[j].0.key() == q);
                            }
                        }
                        if m0.contains_key(q) && q != kk {
                            let j = choose|j: int| 0 <= j < e0.len() && #[trigger] e0[j].0.key() == q;
                            assert(e[j].0.key() == q);
                        }
                        if q == kk {
                            assert(e[n].0.key() == q);
                        }
                    }
                    assert forall|q: Seq<Seq<char>>| #[trigger] self.map().contains_key(q) implies self.map()[q] == m0.insert(kk, v)[q] by {
                        let j = choose|j: int| 0 <= j < e.len() && #[trigger] e[j].0.key() == q;
                        self.lemma_at(j);
                        if j != n {
                            assert(e0[j] == e[j]);
                            assert(old(self).entries@[j].0.key() == q);
                            old(self).lemma_at(j);
                        }
                    }
                    assert(self.map() =~= m0.insert(kk, v));
                }
            },
        }
    }

    /// Take out what is under `k`.
    pub fn remove(&mut self, k: &K) -> (r: Option<T>)
        requires
            old(self).wf(),
        ensures
            final(self).wf(),
            final(self).map() == old(self).map().remove(k.key()),
            r == (if old(self).map().contains_key(k.key()) { Some(old(self).map()[k.key()]) } else { None::<T> }),
            final(self).size() == old(self).size() - (if old(self).map().contains_key(k.key()) { 1int } else { 0int }),
    {
        let ghost kk = k.key();
        let ghost m0 = self.map();
        match self.find(k) {
            Some(i) => {
                proof {
                    self.lemma_at(i as int);
                }
                let ghost e0 = self.entries@;
                let (_, v) = self.entries.remove(i);
                proof {
                    let e = self.entries@;
                    assert(e =~= e0.remove(i as int));
                    assert forall|a: int, b: int| 0 <= a < b < e.len() implies #[trigger] e[a].0.key() != #[trigger] e[b].0.key() by {
                        let a0 = if a < i { a } else { a + 1 };
                        let b0 = if b < i { b } else { b + 1 };
                        assert(e[a] == e0[a0]);
                        assert(e[b] == e0[b0]);
                        assert(e0[a0].0.key() != e0[b0].0.key());
                    }
                    assert forall|q: Seq<Seq<char>>| #[trigger] self.map().contains_key(q) == m0.remove(kk).contains_key(q) by {
                        if self.has(q) {
                            let j = choose|j: int| 0 <= j < e.len() && #[trigger] e[j].0.key() == q;
                            let j0 = if j < i { j } else { j + 1 };
                            assert(e0[j0].0.key() == q);
                            assert(e0[j0].0.key() != e0[i as int].0.key());
                        }
                        if m0.contains_key(q) && q != kk {
                            let j = choose|j: int| 0 <= j < e0.len() && #[trigger] e0[j].0.key() == q;
                            let j1 = if j < i { j } else { j - 1 };
                            assert(j != i);
                            assert(e[j1].0.key() == q);
                        }
                    }
                    assert forall|q: Seq<Seq<char>>| #[trigger] self.map().contains_key(q) implies self.map()[q] == m0.remove(kk)[q] by {
                        let j = choose|j: int| 0 <= j < e.len() && #[trigger] e[j].0.key() == q;
                        self.lemma_at(j);
                        let j0 = if j < i { j } else { j + 1 };
                        assert(e0[j0] == e[j]);
                        assert(old(self).entries@[j0].0.key() == q);
                        old(self).lemma_at(j0);
                    }
                    assert(self.map() =~= m0.remove(kk));
                }
                Some(v)
            },
            None => {
                assert(self.map() =~= m0.remove(kk));
                None
            },
        }
    }
}

} // verus!
