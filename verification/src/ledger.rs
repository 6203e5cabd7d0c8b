use crate::errors::LendingError;
use crate::seqsum::has_id;
use crate::seqsum::idx_of;
use crate::seqsum::lemma_idx_of;
use crate::seqsum::unique_ids;
use vstd::pervasive::VecAdditionalExecFns;
use vstd::prelude::*;

verus! {

/// One reward accumulator per open position, keyed by the position's id.
/// An account starts empty, grows only by distribution credits, and is
/// drained by its owner or folded into the principal when the position
/// closes.
pub struct RewardLedger {
    accounts: Vec<(u64, u64)>,
}

impl View for RewardLedger {
    type V = Seq<(u64, u64)>;

    closed spec fn view(&self) -> Seq<(u64, u64)> {
        self.accounts@
    }
}

impl RewardLedger {
    /// Account ids are distinct.
    pub open spec fn wf(&self) -> bool {
        unique_ids(self@)
    }

    /// An empty ledger.
    pub fn new() -> (r: RewardLedger)
        ensures
            r.wf(),
            r@ == Seq::<(u64, u64)>::empty(),
    {
        let r = RewardLedger { accounts: Vec::new() };
        proof {
            assert(r@ =~= Seq::<(u64, u64)>::empty());
        }
        r
    }

    /// How many accounts exist.
    pub fn len(&self) -> (r: usize)
        ensures
            r == self@.len(),
    {
        self.accounts.len()
    }

    /// Creates the empty account of a newly created position.
    pub fn open_account(&mut self, id: u64)
        requires
            old(self).wf(),
            !has_id(old(self)@, id),
        ensures
            final(self).wf(),
            final(self)@ == old(self)@.push((id, 0u64)),
    {
        self.accounts.push((id, 0));
        proof {
            let s = old(self)@;
            assert forall|i: int, j: int| 0 <= i < j < self@.len() implies self@[i].0
                != self@[j].0 by {
                if j < s.len() {
                    assert(self@[i] == s[i] && self@[j] == s[j]);
                } else {
                    assert(self@[i] == s[i] && self@[j].0 == id);
                }
            }
        }
    }

    /// Adds `amount` to the account under `id`; fails with `NotFound`
    /// exactly when no account carries `id`.
    pub fn credit(&mut self, id: u64, amount: u64) -> (r: Result<(), LendingError>)
        requires
            old(self).wf(),
            has_id(old(self)@, id) ==> old(self)@[idx_of(old(self)@, id)].1 + amount
                <= u64::MAX,
        ensures
            final(self).wf(),
            has_id(old(self)@, id) ==> {
                &&& r == Ok::<(), LendingError>(())
                &&& final(self)@ == old(self)@.update(
                    idx_of(old(self)@, id),
                    (id, (old(self)@[idx_of(old(self)@, id)].1 + amount) as u64),
                )
            },
            !has_id(old(self)@, id) ==> {
                &&& r == Err::<(), LendingError>(LendingError::NotFound)
                &&& final(self)@ == old(self)@
            },
    {
        let n = self.accounts.len();
        for i in 0..n
            invariant
                n == self@.len(),
                self.wf(),
                self@ == old(self)@,
                forall|j: int| 0 <= j < i ==> self@[j].0 != id,
                has_id(old(self)@, id) ==> old(self)@[idx_of(old(self)@, id)].1 + amount
                    <= u64::MAX,
        {
            if self.accounts[i].0 == id {
                proof {
                    lemma_idx_of(self@, id, i as int);
                }
                let bal = self.accounts[i].1;
                self.accounts.set(i, (id, bal + amount));
                proof {
                    lemma_credit_keys(old(self)@, self@, i as int);
                }
                return Ok(());
            }
        }
        Err(LendingError::NotFound)
    }

    /// Adds `amount` to the account at index `i`.  The engine's
    /// distribution sweep walks its snapshot and the ledger in step, so it
    /// credits by index rather than by key.
    pub fn credit_at(&mut self, i: usize, amount: u64)
        requires
            old(self).wf(),
            i < old(self)@.len(),
            old(self)@[i as int].1 + amount <= u64::MAX,
        ensures
            final(self).wf(),
            final(self)@ == old(self)@.update(
                i as int,
                (old(self)@[i as int].0, (old(self)@[i as int].1 + amount) as u64),
            ),
    {
        let id = self.accounts[i].0;
        let bal = self.accounts[i].1;
        self.accounts.set(i, (id, bal + amount));
        proof {
            lemma_credit_keys(old(self)@, self@, i as int);
        }
    }

    /// Zeroes the account under `id` and returns what it held; fails with
    /// `NotFound` exactly when no account carries `id`.
    pub fn drain(&mut self, id: u64) -> (r: Result<u64, LendingError>)
        requires
            old(self).wf(),
        ensures
            final(self).wf(),
            has_id(old(self)@, id) ==> {
                &&& r == Ok::<u64, LendingError>(old(self)@[idx_of(old(self)@, id)].1)
                &&& final(self)@ == old(self)@.update(idx_of(old(self)@, id), (id, 0u64))
            },
            !has_id(old(self)@, id) ==> {
                &&& r == Err::<u64, LendingError>(LendingError::NotFound)
                &&& final(self)@ == old(self)@
            },
    {
        let n = self.accounts.len();
        for i in 0..n
            invariant
                n == self@.len(),
                self.wf(),
                self@ == old(self)@,
                forall|j: int| 0 <= j < i ==> self@[j].0 != id,
        {
            if self.accounts[i].0 == id {
                proof {
                    lemma_idx_of(self@, id, i as int);
                }
                let bal = self.accounts[i].1;
                self.accounts.set(i, (id, 0));
                proof {
                    lemma_credit_keys(old(self)@, self@, i as int);
                }
                return Ok(bal);
            }
        }
        Err(LendingError::NotFound)
    }

    /// Removes the account under `id` (after it was drained, or while its
    /// balance is folded into a closing withdrawal); fails with `NotFound`
    /// exactly when no account carries `id`.
    pub fn close_account(&mut self, id: u64) -> (r: Result<(), LendingError>)
        requires
            old(self).wf(),
        ensures
            final(self).wf(),
            has_id(old(self)@, id) ==> {
                &&& r == Ok::<(), LendingError>(())
                &&& final(self)@ == old(self)@.remove(idx_of(old(self)@, id))
            },
            !has_id(old(self)@, id) ==> {
                &&& r == Err::<(), LendingError>(LendingError::NotFound)
                &&& final(self)@ == old(self)@
            },
    {
        let n = self.accounts.len();
        for i in 0..n
            invariant
                n == self@.len(),
                self.wf(),
                self@ == old(self)@,
                forall|j: int| 0 <= j < i ==> self@[j].0 != id,
        {
            if self.accounts[i].0 == id {
                proof {
                    lemma_idx_of(self@, id, i as int);
                }
                self.accounts.remove(i);
                proof {
                    let s = old(self)@;
                    assert forall|p: int, q: int| 0 <= p < q < self@.len() implies self@[p].0
                        != self@[q].0 by {
                        let sp: int = if p < i { p } else { p + 1 };
                        let sq: int = if q < i { q } else { q + 1 };
                        assert(self@[p].0 == s[sp].0 && self@[q].0 == s[sq].0);
                    }
                }
                return Ok(());
            }
        }
        Err(LendingError::NotFound)
    }

    /// The balance under `id`, without draining it; fails with `NotFound`
    /// exactly when no account carries `id`.
    pub fn balance_of(&self, id: u64) -> (r: Result<u64, LendingError>)
        requires
            self.wf(),
        ensures
            has_id(self@, id) ==> r == Ok::<u64, LendingError>(self@[idx_of(self@, id)].1),
            !has_id(self@, id) ==> r == Err::<u64, LendingError>(LendingError::NotFound),
    {
        let n = self.accounts.len();
        for i in 0..n
            invariant
                n == self@.len(),
                self.wf(),
                forall|j: int| 0 <= j < i ==> self@[j].0 != id,
        {
            if self.accounts[i].0 == id {
                proof {
                    lemma_idx_of(self@, id, i as int);
                }
                return Ok(self.accounts[i].1);
            }
        }
        Err(LendingError::NotFound)
    }
}

/// Updating one entry to a pair with the same key keeps keys distinct.
proof fn lemma_credit_keys(s: Seq<(u64, u64)>, t: Seq<(u64, u64)>, i: int)
    requires
        unique_ids(s),
        0 <= i < s.len(),
        t.len() == s.len(),
        forall|j: int| 0 <= j < s.len() ==> t[j].0 == s[j].0,
    ensures
        unique_ids(t),
{
    assert forall|p: int, q: int| 0 <= p < q < t.len() implies t[p].0 != t[q].0 by {
        assert(t[p].0 == s[p].0 && t[q].0 == s[q].0);
    }
}

} // verus!
