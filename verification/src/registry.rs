use crate::errors::LendingError;
use crate::position::BankerTicketData;
use crate::seqsum::has_id;
use crate::seqsum::idx_of;
use crate::seqsum::lemma_idx_of;
use crate::seqsum::unique_ids;
use vstd::pervasive::VecAdditionalExecFns;
use vstd::prelude::*;

verus! {

/// Stores the live positions, keyed by a unique id.  Ids come from a
/// counter that only grows, so a destroyed position's id is never reused
/// and a fresh id never collides with a live one.
pub struct PositionRegistry {
    entries: Vec<(u64, BankerTicketData)>,
    next_id: u64,
}

impl View for PositionRegistry {
    type V = Seq<(u64, BankerTicketData)>;

    closed spec fn view(&self) -> Seq<(u64, BankerTicketData)> {
        self.entries@
    }
}

impl PositionRegistry {
    /// The id the next `create` will assign.
    pub closed spec fn spec_next_id(&self) -> u64 {
        self.next_id
    }

    /// Ids are distinct and all below the counter.
    pub open spec fn wf(&self) -> bool {
        &&& unique_ids(self@)
        &&& forall|i: int| 0 <= i < self@.len() ==> self@[i].0 < self.spec_next_id()
    }

    /// An empty registry.
    pub fn new() -> (r: PositionRegistry)
        ensures
            r.wf(),
            r@ == Seq::<(u64, BankerTicketData)>::empty(),
            r.spec_next_id() == 0,
    {
        let r = PositionRegistry { entries: Vec::new(), next_id: 0 };
        proof {
            assert(r@ =~= Seq::<(u64, BankerTicketData)>::empty());
        }
        r
    }

    /// The id the next `create` will assign.
    pub fn next_id(&self) -> (r: u64)
        ensures
            r == self.spec_next_id(),
    {
        self.next_id
    }

    /// How many positions are live.
    pub fn len(&self) -> (r: usize)
        ensures
            r == self@.len(),
    {
        self.entries.len()
    }

    /// Allocates a fresh id, never colliding with a live one, and inserts a
    /// position with no loan.
    pub fn create(&mut self, collateral_amount: u64, opened_at: u64) -> (id: u64)
        requires
            old(self).wf(),
            old(self).spec_next_id() < u64::MAX,
        ensures
            final(self).wf(),
            id == old(self).spec_next_id(),
            !has_id(old(self)@, id),
            final(self)@ == old(self)@.push(
                (id, (BankerTicketData { collateral_amount, borrowed_amount: 0, opened_at })),
            ),
            final(self).spec_next_id() == id + 1,
    {
        let id = self.next_id;
        self.next_id = self.next_id + 1;
        self.entries.push(
            (id, BankerTicketData { collateral_amount, borrowed_amount: 0, opened_at }),
        );
        proof {
            let s = old(self)@;
            assert forall|i: int, j: int| 0 <= i < j < self@.len() implies self@[i].0
                != self@[j].0 by {
                if j < s.len() {
                    assert(self@[i] == s[i] && self@[j] == s[j]);
                } else {
                    assert(self@[i] == s[i] && self@[j].0 == id);
                }
            }
        }
        id
    }

    /// Looks a live position up; fails with `NotFound` exactly when no live
    /// position carries `id`.
    pub fn get(&self, id: u64) -> (r: Result<BankerTicketData, LendingError>)
        requires
            self.wf(),
        ensures
            has_id(self@, id) ==> r == Ok::<BankerTicketData, LendingError>(
                self@[idx_of(self@, id)].1,
            ),
            !has_id(self@, id) ==> r == Err::<BankerTicketData, LendingError>(
                LendingError::NotFound,
            ),
    {
        let n = self.entries.len();
        for i in 0..n
            invariant
                n == self@.len(),
                self.wf(),
                forall|j: int| 0 <= j < i ==> self@[j].0 != id,
        {
            if self.entries[i].0 == id {
                proof {
                    lemma_idx_of(self@, id, i as int);
                }
                return Ok(self.entries[i].1);
            }
        }
        Err(LendingError::NotFound)
    }

    /// Replaces the mutable fields of the position under `id`; fails with
    /// `NotFound` exactly when no live position carries `id`.
    pub fn update(&mut self, id: u64, data: BankerTicketData) -> (r: Result<(), LendingError>)
        requires
            old(self).wf(),
        ensures
            final(self).wf(),
            final(self).spec_next_id() == old(self).spec_next_id(),
            has_id(old(self)@, id) ==> {
                &&& r == Ok::<(), LendingError>(())
                &&& final(self)@ == old(self)@.update(idx_of(old(self)@, id), (id, data))
            },
            !has_id(old(self)@, id) ==> {
                &&& r == Err::<(), LendingError>(LendingError::NotFound)
                &&& final(self)@ == old(self)@
            },
    {
        let n = self.entries.len();
        for i in 0..n
            invariant
                n == self@.len(),
                self.wf(),
                self@ == old(self)@,
                self.spec_next_id() == old(self).spec_next_id(),
                forall|j: int| 0 <= j < i ==> self@[j].0 != id,
        {
            if self.entries[i].0 == id {
                proof {
                    lemma_idx_of(self@, id, i as int);
                }
                self.entries.set(i, (id, data));
                proof {
                    let s = old(self)@;
                    assert forall|p: int, q: int| 0 <= p < q < self@.len() implies self@[p].0
                        != self@[q].0 by {
                        assert(self@[p].0 == s[p].0 && self@[q].0 == s[q].0);
                    }
                    assert forall|p: int| 0 <= p < self@.len() implies self@[p].0
                        < self.spec_next_id() by {
                        assert(self@[p].0 == s[p].0);
                    }
                }
                return Ok(());
            }
        }
        Err(LendingError::NotFound)
    }

    /// Destroys the position under `id`; its id is never assigned again.
    /// Fails with `NotFound` exactly when no live position carries `id`.
    pub fn remove(&mut self, id: u64) -> (r: Result<(), LendingError>)
        requires
            old(self).wf(),
        ensures
            final(self).wf(),
            final(self).spec_next_id() == old(self).spec_next_id(),
            has_id(old(self)@, id) ==> {
                &&& r == Ok::<(), LendingError>(())
                &&& final(self)@ == old(self)@.remove(idx_of(old(self)@, id))
            },
            !has_id(old(self)@, id) ==> {
                &&& r == Err::<(), LendingError>(LendingError::NotFound)
                &&& final(self)@ == old(self)@
            },
    {
        let n = self.entries.len();
        for i in 0..n
            invariant
                n == self@.len(),
                self.wf(),
                self@ == old(self)@,
                self.spec_next_id() == old(self).spec_next_id(),
                forall|j: int| 0 <= j < i ==> self@[j].0 != id,
        {
            if self.entries[i].0 == id {
                proof {
                    lemma_idx_of(self@, id, i as int);
                }
                self.entries.remove(i);
                proof {
                    let s = old(self)@;
                    assert forall|p: int, q: int| 0 <= p < q < self@.len() implies self@[p].0
                        != self@[q].0 by {
                        let sp: int = if p < i { p } else { p + 1 };
                        let sq: int = if q < i { q } else { q + 1 };
                        assert(self@[p].0 == s[sp].0 && self@[q].0 == s[sq].0);
                    }
                    assert forall|p: int| 0 <= p < self@.len() implies self@[p].0
                        < self.spec_next_id() by {
                        let sp: int = if p < i { p } else { p + 1 };
                        assert(self@[p].0 == s[sp].0);
                    }
                }
                return Ok(());
            }
        }
        Err(LendingError::NotFound)
    }

    /// A snapshot of all live positions, in registry order: the consistent
    /// point-in-time view the distribution sweep works from.
    pub fn iterate(&self) -> (r: Vec<(u64, BankerTicketData)>)
        ensures
            r@ == self@,
    {
        let mut out: Vec<(u64, BankerTicketData)> = Vec::new();
        let n = self.entries.len();
        proof {
            assert(out@ =~= self@.take(0));
        }
        for i in 0..n
            invariant
                n == self@.len(),
                out@ == self@.take(i as int),
        {
            out.push(self.entries[i]);
            proof {
                assert(out@ =~= self@.take(i as int + 1));
            }
        }
        proof {
            assert(self@.take(n as int) =~= self@);
        }
        out
    }
}

} // verus!
