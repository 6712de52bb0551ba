//! Single-flight bookkeeping: at most one producer runs per key at a time.
//! This is the decision state of the coalescer. The async fan-out around it
//! (the leader runs the producer once; followers await the broadcast of the
//! leader's value, so all callers of one flight observe the same result)
//! performs `begin` when a call arrives and `complete` when the leader
//! publishes, before returning, so a later call starts a fresh flight and
//! the in-flight set never retains finished keys.

use vstd::prelude::*;

use crate::text::str_eq;

verus! {

/// The in-flight keys of a single-flight group.
pub struct Group {
    pending: Vec<String>,
}

impl Group {
    /// Whether a flight for `k` is under way.
    pub closed spec fn is_pending(self, k: Seq<char>) -> bool {
        exists|i: int| 0 <= i < self.pending@.len() && self.pending@[i]@ == k
    }

    /// The in-flight keys are distinct.
    pub closed spec fn wf(self) -> bool {
        forall|i: int, j: int|
            0 <= i < j < self.pending@.len() ==> (#[trigger] self.pending@[i]@) != (
            #[trigger] self.pending@[j]@)
    }

    /// A group with no flight under way.
    pub fn new() -> (r: Self)
        ensures
            r.wf(),
            forall|k: Seq<char>| !(#[trigger] r.is_pending(k)),
    {
        Group { pending: Vec::new() }
    }

    fn find(&self, key: &str) -> (r: Option<usize>)
        ensures
            match r {
                Some(i) => i < self.pending@.len() && self.pending@[i as int]@ == key@,
                None => !self.is_pending(key@),
            },
    {
        let mut i: usize = 0;
        while i < self.pending.len()
            invariant
                0 <= i <= self.pending@.len(),
                forall|j: int| 0 <= j < i ==> (#[trigger] self.pending@[j]@) != key@,
            decreases self.pending@.len() - i,
        {
            if str_eq(self.pending[i].as_str(), key) {
                return Some(i);
            }
            i += 1;
        }
        None
    }

    /// Registers a call for `key`. The call leads exactly when no flight
    /// for the key was under way; either way a flight is under way after,
    /// and no other key is touched.
    pub fn begin(&mut self, key: &str) -> (leader: bool)
        requires
            old(self).wf(),
        ensures
            final(self).wf(),
            leader == !old(self).is_pending(key@),
            final(self).is_pending(key@),
            forall|k2: Seq<char>|
                k2 != key@ ==> (#[trigger] final(self).is_pending(k2)) == old(self).is_pending(k2),
    {
        match self.find(key) {
            Some(_) => {
                false
            },
            None => {
                let ghost ops = self.pending@;
                self.pending.push(String::from_str(key));
                proof {
                    assert(self.pending@[ops.len() as int]@ == key@);
                    assert forall|i: int, j: int|
                        0 <= i < j < self.pending@.len() implies (#[trigger] self.pending@[i]@)
                        != (#[trigger] self.pending@[j]@) by {
                        if j < ops.len() as int {
                            assert(ops[i]@ != ops[j]@);
                        } else {
                            assert(self.pending@[i]@ == ops[i]@);
                        }
                    }
                    assert forall|k2: Seq<char>|
                        k2 != key@ implies (#[trigger] self.is_pending(k2)) == old(
                        self,
                    ).is_pending(k2) by {
                        if self.is_pending(k2) {
                            let w = choose|w: int|
                                0 <= w < self.pending@.len() && self.pending@[w]@ == k2;
                            assert(w < ops.len());
                            assert(ops[w]@ == k2);
                        }
                        if old(self).is_pending(k2) {
                            let w = choose|w: int| 0 <= w < ops.len() && ops[w]@ == k2;
                            assert(self.pending@[w]@ == k2);
                        }
                    }
                }
                true
            },
        }
    }

    /// Ends the flight for `key`: the key leaves the in-flight set (before
    /// the leader returns), so a later call begins a fresh flight; no other
    /// key is touched.
    pub fn complete(&mut self, key: &str)
        requires
            old(self).wf(),
        ensures
            final(self).wf(),
            !final(self).is_pending(key@),
            forall|k2: Seq<char>|
                k2 != key@ ==> (#[trigger] final(self).is_pending(k2)) == old(self).is_pending(k2),
    {
        match self.find(key) {
            Some(i) => {
                let ghost ops = self.pending@;
                self.pending.remove(i);
                proof {
                    assert(self.pending@ =~= ops.remove(i as int));
                    assert(forall|j: int| 0 <= j < i ==> self.pending@[j] == ops[j]);
                    assert(forall|j: int|
                        i <= j < self.pending@.len() ==> self.pending@[j] == ops[j + 1]);
                    assert forall|a: int, b: int|
                        0 <= a < b < self.pending@.len() implies (#[trigger] self.pending@[a]@)
                        != (#[trigger] self.pending@[b]@) by {
                        let pa: int = if a < i as int {
                            a
                        } else {
                            a + 1
                        };
                        let pb: int = if b < i as int {
                            b
                        } else {
                            b + 1
                        };
                        assert(ops[pa]@ != ops[pb]@);
                    }
                    assert forall|j: int| 0 <= j < self.pending@.len() implies (
                    #[trigger] self.pending@[j]@) != key@ by {
                        let pj: int = if j < i as int {
                            j
                        } else {
                            j + 1
                        };
                        assert(self.pending@[j] == ops[pj]);
                        if ops[pj]@ == key@ {
                            if pj < i as int {
                                assert(ops[pj]@ != ops[i as int]@);
                            } else {
                                assert(ops[i as int]@ != ops[pj]@);
                            }
                        }
                    }
                    assert forall|k2: Seq<char>|
                        k2 != key@ implies (#[trigger] self.is_pending(k2)) == old(
                        self,
                    ).is_pending(k2) by {
                        if self.is_pending(k2) {
                            let w = choose|w: int|
                                0 <= w < self.pending@.len() && self.pending@[w]@ == k2;
                            let pw: int = if w < i as int {
                                w
                            } else {
                                w + 1
                            };
                            assert(ops[pw]@ == k2);
                        }
                        if old(self).is_pending(k2) {
                            let w = choose|w: int| 0 <= w < ops.len() && ops[w]@ == k2;
                            assert(w != i as int);
                            let nw: int = if w < i as int {
                                w
                            } else {
                                w - 1
                            };
                            assert(self.pending@[nw]@ == k2);
                        }
                    }
                }
            },
            None => {},
        }
    }
}

/// One step of a flight's history for a single key: a call arriving, or
/// the flight finishing.
pub enum FlightOp {
    Begin,
    Complete,
}

/// How many of the arriving calls lead, walking the history from a state
/// where the key is in flight or not: a `Begin` leads exactly when the key
/// is not in flight (and puts it in flight), a `Complete` takes it out.
/// These are the transitions `Group::begin` and `Group::complete` make.
pub open spec fn leaders_in(ops: Seq<FlightOp>, pending: bool) -> nat
    decreases ops.len(),
{
    if ops.len() == 0 {
        0
    } else {
        match ops[0] {
            FlightOp::Begin => (if !pending {
                1nat
            } else {
                0nat
            }) + leaders_in(ops.drop_first(), true),
            FlightOp::Complete => leaders_in(ops.drop_first(), false),
        }
    }
}

/// Once a key is in flight, no call leads until the flight completes.
proof fn lemma_no_leader_while_pending(ops: Seq<FlightOp>)
    requires
        forall|i: int| 0 <= i < ops.len() ==> (#[trigger] ops[i]) != FlightOp::Complete,
    ensures
        leaders_in(ops, true) == 0,
    decreases ops.len(),
{
    if ops.len() != 0 {
        assert(ops[0] != FlightOp::Complete);
        lemma_no_leader_while_pending(ops.drop_first());
    }
}

/// One flight, one leader: in any history of calls on one key with no
/// completion among them, at most one call leads, so the producer for that
/// key is started at most once per flight, however many calls arrive.
pub proof fn lemma_one_leader_per_flight(ops: Seq<FlightOp>)
    requires
        forall|i: int| 0 <= i < ops.len() ==> (#[trigger] ops[i]) != FlightOp::Complete,
    ensures
        leaders_in(ops, false) <= 1,
{
    if ops.len() != 0 {
        assert(ops[0] != FlightOp::Complete);
        lemma_no_leader_while_pending(ops.drop_first());
    }
}

} // verus!
