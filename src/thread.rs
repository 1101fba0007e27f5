//! Ordered reassembly for the multi-threaded reader and writer: batches are numbered
//! as they are dispatched, finish in any order, and are handed on by number.
use std::collections::HashMap;
use vstd::prelude::*;

verus! {

broadcast use vstd::std_specs::hash::group_hash_axioms;

/// Finished batches waiting for their turn, by number, and the number of the next
/// batch to hand on.
pub struct OrderedBlocks {
    next_index: u64,
    waiting: HashMap<u64, Vec<u8>>,
    arrived: Ghost<Map<u64, Seq<u8>>>,
    delivered: Ghost<Seq<Seq<u8>>>,
}

impl OrderedBlocks {
    /// Number of the next batch to hand on.
    pub closed spec fn next(&self) -> u64 {
        self.next_index
    }

    /// Every batch that has arrived, by number.
    pub closed spec fn arrived(&self) -> Map<u64, Seq<u8>> {
        self.arrived@
    }

    /// Every batch handed on so far, in the order handed on.
    pub closed spec fn delivered(&self) -> Seq<Seq<u8>> {
        self.delivered@
    }

    /// The batches handed on are those numbered `0, 1, 2, ...`, in that order, whatever
    /// order they arrived in; the others that arrived are waiting.
    pub closed spec fn wf(&self) -> bool {
        &&& self.delivered@.len() == self.next_index
        &&& forall|k: u64|
            #![trigger self.arrived@.contains_key(k)]
            #![trigger self.arrived@[k]]
            #![trigger self.delivered@[k as int]]
            k < self.next_index ==> self.arrived@.contains_key(k) && self.delivered@[k as int]
                == self.arrived@[k]
        &&& forall|k: u64|
            #![trigger self.waiting@.contains_key(k)]
            self.waiting@.contains_key(k) ==> k >= self.next_index && self.arrived@.contains_key(k)
                && self.arrived@[k] == self.waiting@[k]@
        &&& forall|k: u64|
            #![trigger self.arrived@.contains_key(k)]
            self.arrived@.contains_key(k) ==> k < u64::MAX && (k < self.next_index
                || self.waiting@.contains_key(k))
    }

    /// Ordering: whatever order the batches arrived in, the batches handed on are those
    /// numbered `0 .. next()`, in number order, each as it arrived.
    pub proof fn lemma_delivery_in_order(&self)
        requires
            self.wf(),
        ensures
            self.delivered().len() == self.next(),
            forall|k: u64|
                k < self.next() ==> self.arrived().contains_key(k) && #[trigger] self.delivered()[k as int]
                    == self.arrived()[k],
    {
    }

    pub fn new() -> (r: Self)
        ensures
            r.wf(),
            r.next() == 0,
            r.delivered() == Seq::<Seq<u8>>::empty(),
            r.arrived() == Map::<u64, Seq<u8>>::empty(),
    {
        let r = OrderedBlocks {
            next_index: 0,
            waiting: HashMap::new(),
            arrived: Ghost(Map::empty()),
            delivered: Ghost(Seq::empty()),
        };
        r
    }

    /// Whether batch `index` has arrived and not been handed on.
    pub fn is_waiting(&self, index: u64) -> (r: bool)
        requires
            self.wf(),
        ensures
            r == (self.arrived().contains_key(index) && index >= self.next()),
    {
        self.waiting.contains_key(&index)
    }

    /// Accepts finished batch `index` and hands on every batch that is now next in
    /// line, in order.
    pub fn insert(&mut self, index: u64, data: Vec<u8>) -> (r: Vec<Vec<u8>>)
        requires
            old(self).wf(),
            index >= old(self).next(),
            !old(self).arrived().contains_key(index),
            index < u64::MAX,
        ensures
            final(self).wf(),
            final(self).arrived() == old(self).arrived().insert(index, data@),
            final(self).delivered() == old(self).delivered() + r@.map_values(|v: Vec<u8>| v@),
            final(self).next() == old(self).next() + r@.len(),
            !final(self).arrived().contains_key(final(self).next()),
    {
        self.arrived = Ghost(self.arrived@.insert(index, data@));
        self.waiting.insert(index, data);
        let mut out: Vec<Vec<u8>> = Vec::new();
        let ghost start = self.delivered@;
        let ghost n0 = self.next_index;
        proof {
            assert(out@.map_values(|v: Vec<u8>| v@) =~= Seq::<Seq<u8>>::empty());
            assert(start + Seq::<Seq<u8>>::empty() =~= start);
            assert forall|k: u64| k < self.next_index implies self.arrived@.contains_key(k)
                && self.delivered@[k as int] == self.arrived@[k] by {
                assert(old(self).arrived@.contains_key(k));
                assert(old(self).delivered@[k as int] == old(self).arrived@[k]);
            }
            assert forall|k: u64| self.waiting@.contains_key(k) implies k >= self.next_index
                && self.arrived@.contains_key(k) && self.arrived@[k] == self.waiting@[k]@ by {
                if k != index {
                    assert(old(self).waiting@.contains_key(k));
                }
            }
            assert forall|k: u64| self.arrived@.contains_key(k) implies k < u64::MAX && (k
                < self.next_index || self.waiting@.contains_key(k)) by {
                if k != index {
                    assert(old(self).arrived@.contains_key(k));
                }
            }
        }
        while self.waiting.contains_key(&self.next_index)
            invariant
                self.wf(),
                self.arrived@ == old(self).arrived@.insert(index, data@),
                self.next_index == n0 + out@.len(),
                self.delivered@ == start + out@.map_values(|v: Vec<u8>| v@),
                start == old(self).delivered@,
                n0 == old(self).next_index,
            ensures
                !self.waiting@.contains_key(self.next_index),
            decreases u64::MAX - self.next_index,
        {
            let nx = self.next_index;
            let ghost w = self.waiting@;
            let ghost before_out = out@;
            let ghost dv = self.delivered@;
            assert(self.arrived@.contains_key(nx));
            match self.waiting.remove(&nx) {
                Some(d) => {
                    proof {
                        assert(self.arrived@[nx] == d@);
                    }
                    out.push(d);
                    self.next_index = nx + 1;
                    self.delivered = Ghost(self.delivered@.push(d@));
                    proof {
                        assert(out@.map_values(|v: Vec<u8>| v@) =~= before_out.map_values(
                            |v: Vec<u8>| v@,
                        ).push(d@));
                        assert forall|k: u64| k < self.next_index implies self.arrived@.contains_key(k)
                            && self.delivered@[k as int] == self.arrived@[k] by {
                            if k < nx {
                                assert(self.delivered@[k as int] == dv[k as int]);
                                assert(dv[k as int] == self.arrived@[k]);
                            }
                        }
                        assert forall|k: u64| self.waiting@.contains_key(k) implies k >= self.next_index
                            && self.arrived@.contains_key(k) && self.arrived@[k] == self.waiting@[k]@ by {
                            assert(w.contains_key(k));
                        }
                        assert forall|k: u64| self.arrived@.contains_key(k) implies k < u64::MAX && (k
                            < self.next_index || self.waiting@.contains_key(k)) by {
                            if k > nx {
                                assert(w.contains_key(k));
                            }
                        }
                    }
                },
                None => {
                    break;
                },
            }
        }
        out
    }
}

} // verus!
