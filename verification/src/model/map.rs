//! A map from outlets to outlets that keeps its entries in the order in
//! which their keys first came.

use vstd::prelude::*;
use crate::model::graph::OutletId;

verus! {

/// Outlets of one graph, each with the outlet of another that stands for it.
pub struct OutletMap {
    pub keys: Vec<OutletId>,
    pub values: Vec<OutletId>,
}

impl View for OutletMap {
    type V = Map<OutletId, OutletId>;

    open spec fn view(&self) -> Map<OutletId, OutletId> {
        Map::new(
            |k: OutletId| self.keys@.contains(k),
            |k: OutletId| self.values[self.keys@.index_of(k)],
        )
    }
}

impl OutletMap {
    /// Each key has its value, and no key comes twice.
    pub open spec fn wf(&self) -> bool {
        self.keys.len() == self.values.len() && self.keys@.no_duplicates()
    }

    /// The entries in order.
    pub open spec fn entries(&self) -> Seq<(OutletId, OutletId)> {
        Seq::new(self.keys.len() as nat, |i: int| (self.keys[i], self.values[i]))
    }

    /// A map without entries.
    pub fn new() -> (r: OutletMap)
        ensures
            r.wf(),
            r@ == Map::<OutletId, OutletId>::empty(),
            r.keys.len() == 0,
    {
        let r = OutletMap { keys: Vec::new(), values: Vec::new() };
        assert(r@ =~= Map::<OutletId, OutletId>::empty());
        r
    }

    /// How many entries the map has.
    pub fn len(&self) -> (r: usize)
        ensures
            r == self.keys.len(),
    {
        self.keys.len()
    }

    /// Whether the map has no entry.
    pub fn is_empty(&self) -> (r: bool)
        ensures
            r == (self.keys.len() == 0),
    {
        self.keys.len() == 0
    }

    /// Where `k` stands among the keys, if it does.
    fn position(&self, k: OutletId) -> (r: Option<usize>)
        requires
            self.wf(),
        ensures
            match r {
                Some(i) => i < self.keys.len() && self.keys[i as int] == k && self.keys@.contains(k)
                    && self.keys@.index_of(k) == i,
                None => !self.keys@.contains(k),
            },
    {
        let mut i: usize = 0;
        while i < self.keys.len()
            invariant
                0 <= i <= self.keys.len(),
                self.wf(),
                forall|j: int| 0 <= j < i ==> self.keys[j] != k,
            decreases self.keys.len() - i,
        {
            if self.keys[i] == k {
                proof {
                    assert(self.keys@.contains(k));
                    let j = self.keys@.index_of(k);
                    assert(0 <= j < self.keys.len() && self.keys@[j] == k);
                }
                return Some(i);
            }
            i += 1;
        }
        None
    }

    /// The value of `k`, if it has one.
    pub fn get(&self, k: OutletId) -> (r: Option<OutletId>)
        requires
            self.wf(),
        ensures
            r == (if self@.contains_key(k) {
                Some(self@[k])
            } else {
                None
            }),
    {
        match self.position(k) {
            Some(i) => Some(self.values[i]),
            None => None,
        }
    }

    /// Whether `k` has a value.
    pub fn contains_key(&self, k: OutletId) -> (r: bool)
        requires
            self.wf(),
        ensures
            r == self@.contains_key(k),
    {
        self.position(k).is_some()
    }

    /// Gives `k` the value `v`. A key that is new comes last.
    pub fn insert(&mut self, k: OutletId, v: OutletId)
        requires
            old(self).wf(),
        ensures
            final(self).wf(),
            final(self)@ == old(self)@.insert(k, v),
            final(self).entries() == (if old(self)@.contains_key(k) {
                old(self).entries().update(old(self).keys@.index_of(k), (k, v))
            } else {
                old(self).entries().push((k, v))
            }),
    {
        match self.position(k) {
            Some(i) => {
                self.values.set(i, v);
                proof {
                    assert(self.keys@ == old(self).keys@);
                    assert forall|x: OutletId| self@.contains_key(x) implies #[trigger] self@[x]
                        == old(self)@.insert(k, v)[x] by {
                        let j = self.keys@.index_of(x);
                        assert(0 <= j < self.keys.len() && self.keys@[j] == x);
                    }
                    assert(self@ =~= old(self)@.insert(k, v));
                    assert(self.entries() =~= old(self).entries().update(i as int, (k, v)));
                }
            },
            None => {
                self.keys.push(k);
                self.values.push(v);
                proof {
                    let ks = self.keys@;
                    assert forall|a: int, b: int|
                        0 <= a < ks.len() && 0 <= b < ks.len() && a != b implies ks[a] != ks[b] by {
                        if a < ks.len() - 1 && b < ks.len() - 1 {
                            assert(old(self).keys@[a] != old(self).keys@[b]);
                        } else if a < ks.len() - 1 {
                            assert(old(self).keys@.contains(ks[a]));
                        } else {
                            assert(old(self).keys@.contains(ks[b]));
                        }
                    }
                    assert forall|x: OutletId| #[trigger]
                        self@.contains_key(x) <==> old(self)@.insert(k, v).contains_key(x) by {
                        if old(self).keys@.contains(x) {
                            let j = choose|j: int|
                                0 <= j < old(self).keys.len() && old(self).keys@[j] == x;
                            assert(ks[j] == x);
                        }
                        if x == k {
                            assert(ks[ks.len() - 1] == k);
                        }
                        if ks.contains(x) && x != k {
                            let j = choose|j: int| 0 <= j < ks.len() && ks[j] == x;
                            assert(old(self).keys@[j] == x);
                        }
                    }
                    assert forall|x: OutletId| self@.contains_key(x) implies #[trigger] self@[x]
                        == old(self)@.insert(k, v)[x] by {
                        let j = ks.index_of(x);
                        assert(0 <= j < ks.len() && ks[j] == x);
                        if x == k {
                            assert(ks[ks.len() - 1] == k);
                            assert(j == ks.len() - 1);
                        } else {
                            assert(old(self).keys@[j] == x);
                            let j0 = old(self).keys@.index_of(x);
                            assert(0 <= j0 < old(self).keys.len() && old(self).keys@[j0] == x);
                            assert(ks[j0] == x);
                            assert(j0 == j);
                        }
                    }
                    assert(self@ =~= old(self)@.insert(k, v));
                    assert(self.entries() =~= old(self).entries().push((k, v)));
                }
            },
        }
    }
}

} // verus!
