//! Bookkeeping of the fixed-capacity connection pool.  The pool itself only
//! decides: the surrounding reactor loop owns the sockets, polls each live
//! slot once per tick, and hands the outcomes in; the pool answers which slot
//! (if any) a newly accepted socket takes, first-fit over slots that are empty
//! or whose connection just reported closure.  When every slot stays occupied
//! the newcomer is dropped.

use vstd::prelude::*;

verus! {

/// Whether slot `i` can take a new connection this tick: it is empty, or its
/// occupant's poll just reported closure.
pub open spec fn slot_free(live: Seq<bool>, closed_now: Seq<bool>, i: int) -> bool {
    !live[i] || closed_now[i]
}

/// The liveness flags after the tick's eviction pass alone: closed occupants
/// are gone, everything else is kept.
pub open spec fn swept(live: Seq<bool>, closed_now: Seq<bool>) -> Seq<bool> {
    Seq::new(live.len(), |i: int| live[i] && !closed_now[i])
}

/// A fixed array of slots, each holding at most one live connection.
pub struct Pool {
    live: Vec<bool>,
}

impl Pool {
    /// The liveness flag of each slot.
    pub closed spec fn slots(self) -> Seq<bool> {
        self.live@
    }

    /// A pool of `capacity` empty slots.
    pub fn new(capacity: usize) -> (p: Pool)
        ensures
            p.slots().len() == capacity,
            forall|i: int| 0 <= i < capacity ==> !p.slots()[i],
    {
        let mut live: Vec<bool> = Vec::new();
        let mut k: usize = 0;
        while k < capacity
            invariant
                k <= capacity,
                live@.len() == k,
                forall|i: int| 0 <= i < k ==> !live@[i],
            decreases capacity - k,
        {
            live.push(false);
            k += 1;
        }
        Pool { live }
    }

    /// Number of slots; fixed at creation.
    pub fn capacity(&self) -> (n: usize)
        ensures
            n == self.slots().len(),
    {
        self.live.len()
    }

    /// Whether slot `i` currently holds a live connection.
    pub fn is_live(&self, i: usize) -> (b: bool)
        requires
            i < self.slots().len(),
        ensures
            b == self.slots()[i as int],
    {
        self.live[i]
    }

    /// One reactor tick's slot bookkeeping.  `closed_now[i]` reports whether
    /// slot `i`'s connection was found closed by this tick's poll (only
    /// meaningful for live slots); `new_pending` says a freshly accepted
    /// socket is waiting.  Closed occupants are evicted; the newcomer takes
    /// the first-fit free slot, and is dropped when there is none.
    #[verifier::loop_isolation(false)]
    pub fn tick(&mut self, closed_now: &Vec<bool>, new_pending: bool) -> (admitted: Option<
        usize,
    >)
        requires
            closed_now@.len() == old(self).slots().len(),
        ensures
            final(self).slots().len() == old(self).slots().len(),
            (admitted matches Some(j) ==> {
                &&& new_pending
                &&& j < old(self).slots().len()
                &&& slot_free(old(self).slots(), closed_now@, j as int)
                &&& (forall|k: int|
                    0 <= k < j ==> !slot_free(old(self).slots(), closed_now@, k))
                &&& final(self).slots() == swept(old(self).slots(), closed_now@).update(
                    j as int,
                    true,
                )
            }),
            (admitted is None ==> {
                &&& final(self).slots() == swept(old(self).slots(), closed_now@)
                &&& (new_pending ==> forall|k: int|
                    0 <= k < old(self).slots().len() ==> !slot_free(
                        old(self).slots(),
                        closed_now@,
                        k,
                    ))
            }),
            (new_pending && (exists|k: int|
                0 <= k < old(self).slots().len() && slot_free(
                    old(self).slots(),
                    closed_now@,
                    k,
                )) ==> admitted is Some),
    {
        let n = self.live.len();
        let mut i: usize = 0;
        while i < n
            invariant
                n == self.live@.len(),
                i <= n,
                forall|k: int|
                    0 <= k < i ==> #[trigger] self.live@[k] == (old(self).slots()[k]
                        && !closed_now@[k]),
                forall|k: int| i <= k < n ==> #[trigger] self.live@[k] == old(self).slots()[k],
            decreases n - i,
        {
            let ghost pre = self.live@;
            let kept = self.live[i] && !closed_now[i];
            self.live[i] = kept;
            proof {
                assert forall|k: int| 0 <= k < i + 1 implies #[trigger] self.live@[k] == (old(
                    self,
                ).slots()[k] && !closed_now@[k]) by {
                    if k < i {
                        assert(self.live@[k] == pre[k]);
                    }
                }
            }
            i += 1;
        }
        proof {
            assert(self.live@ =~= swept(old(self).slots(), closed_now@));
        }
        if new_pending {
            let mut j: usize = 0;
            while j < n
                invariant
                    n == self.live@.len(),
                    j <= n,
                    self.live@ == swept(old(self).slots(), closed_now@),
                    forall|k: int|
                        0 <= k < j ==> !slot_free(old(self).slots(), closed_now@, k),
                decreases n - j,
            {
                if !self.live[j] {
                    self.live[j] = true;
                    proof {
                        assert(slot_free(old(self).slots(), closed_now@, j as int));
                    }
                    return Option::Some(j);
                }
                proof {
                    assert(!slot_free(old(self).slots(), closed_now@, j as int));
                }
                j += 1;
            }
        }
        Option::None
    }
}

} // verus!
