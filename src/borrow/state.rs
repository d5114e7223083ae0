use vstd::prelude::*;

verus! {

/// Why an acquisition on the unsynchronized-checked cell was refused.
#[derive(Debug, Clone, Copy, PartialEq, Eq, Structural)]
pub enum OwningAtomicRefError {
    /// The cell is already borrowed in a way that excludes the request.
    BorrowError,
}

/// Why a non-blocking acquisition on the lock-based cell was refused.
#[derive(Debug, Clone, Copy, PartialEq, Eq, Structural)]
pub enum OwningShardedLockError {
    /// The lock is held in a way that excludes the request.
    WouldBlock,
}

/// The borrow state of one cell: free, `n >= 1` shared borrows, or one
/// exclusive borrow.
#[derive(Debug, Clone, Copy, PartialEq, Eq, Structural)]
pub enum BorrowState {
    Free,
    Shared(usize),
    Exclusive,
}

impl BorrowState {
    /// A shared state always counts at least one reader.
    pub open spec fn wf(self) -> bool {
        self matches BorrowState::Shared(n) ==> n >= 1
    }

    /// Number of live shared guards.
    pub open spec fn shared_count(self) -> nat {
        match self {
            BorrowState::Shared(n) => n as nat,
            _ => 0,
        }
    }

    /// Number of live exclusive guards.
    pub open spec fn exclusive_count(self) -> nat {
        if self is Exclusive {
            1
        } else {
            0
        }
    }

    /// A shared borrow may be added.
    pub open spec fn spec_can_share(self) -> bool {
        !(self is Exclusive)
    }

    /// An exclusive borrow may be taken.
    pub open spec fn spec_can_exclusive(self) -> bool {
        self is Free
    }

    /// The state after one more shared borrow.
    pub open spec fn shared_added(self) -> BorrowState {
        match self {
            BorrowState::Shared(n) => BorrowState::Shared((n + 1) as usize),
            _ => BorrowState::Shared(1),
        }
    }

    /// The state after one shared borrow is released.
    pub open spec fn shared_removed(self) -> BorrowState {
        match self {
            BorrowState::Shared(n) => if n <= 1 {
                BorrowState::Free
            } else {
                BorrowState::Shared((n - 1) as usize)
            },
            _ => self,
        }
    }

    /// A fresh cell has no borrow.
    pub fn new() -> (r: BorrowState)
        ensures
            r == BorrowState::Free,
            r.wf(),
    {
        BorrowState::Free
    }

    pub fn is_free(&self) -> (r: bool)
        ensures
            r == (*self is Free),
    {
        match self {
            BorrowState::Free => true,
            _ => false,
        }
    }

    pub fn can_share(&self) -> (r: bool)
        ensures
            r == self.spec_can_share(),
    {
        match self {
            BorrowState::Exclusive => false,
            _ => true,
        }
    }

    pub fn can_exclusive(&self) -> (r: bool)
        ensures
            r == self.spec_can_exclusive(),
    {
        self.is_free()
    }

    /// Adds a shared borrow when no exclusive one is alive; otherwise the
    /// state stays as it was and the request fails.
    pub fn try_share(&mut self) -> (r: bool)
        requires
            old(self).wf(),
            old(self).shared_count() < usize::MAX,
        ensures
            r == old(self).spec_can_share(),
            r ==> *final(self) == old(self).shared_added(),
            !r ==> *final(self) == *old(self),
            final(self).wf(),
    {
        match *self {
            BorrowState::Free => {
                *self = BorrowState::Shared(1);
                true
            },
            BorrowState::Shared(n) => {
                *self = BorrowState::Shared(n + 1);
                true
            },
            BorrowState::Exclusive => false,
        }
    }

    /// Takes the exclusive borrow when the cell is free; otherwise the state
    /// stays as it was and the request fails.
    pub fn try_exclusive(&mut self) -> (r: bool)
        requires
            old(self).wf(),
        ensures
            r == old(self).spec_can_exclusive(),
            r ==> *final(self) == BorrowState::Exclusive,
            !r ==> *final(self) == *old(self),
            final(self).wf(),
    {
        if self.is_free() {
            *self = BorrowState::Exclusive;
            true
        } else {
            false
        }
    }

    /// Releases one shared borrow.
    pub fn release_shared(&mut self)
        requires
            old(self).wf(),
            *old(self) is Shared,
        ensures
            *final(self) == old(self).shared_removed(),
            final(self).wf(),
    {
        match *self {
            BorrowState::Shared(n) => {
                if n <= 1 {
                    *self = BorrowState::Free;
                } else {
                    *self = BorrowState::Shared(n - 1);
                }
            },
            _ => {},
        }
    }

    /// Releases the exclusive borrow.
    pub fn release_exclusive(&mut self)
        requires
            *old(self) is Exclusive,
        ensures
            *final(self) == BorrowState::Free,
    {
        *self = BorrowState::Free;
    }

    /// Checked shared acquisition of the unsynchronized discipline.
    pub fn try_acquire_shared(&mut self) -> (r: Result<(), OwningAtomicRefError>)
        requires
            old(self).wf(),
            old(self).shared_count() < usize::MAX,
        ensures
            r is Ok <==> old(self).spec_can_share(),
            r is Ok ==> *final(self) == old(self).shared_added(),
            r is Err ==> *final(self) == *old(self) && r == Err::<(), _>(
                OwningAtomicRefError::BorrowError,
            ),
            final(self).wf(),
    {
        if self.try_share() {
            Ok(())
        } else {
            Err(OwningAtomicRefError::BorrowError)
        }
    }

    /// Checked exclusive acquisition of the unsynchronized discipline.
    pub fn try_acquire_exclusive(&mut self) -> (r: Result<(), OwningAtomicRefError>)
        requires
            old(self).wf(),
        ensures
            r is Ok <==> old(self).spec_can_exclusive(),
            r is Ok ==> *final(self) == BorrowState::Exclusive,
            r is Err ==> *final(self) == *old(self) && r == Err::<(), _>(
                OwningAtomicRefError::BorrowError,
            ),
            final(self).wf(),
    {
        if self.try_exclusive() {
            Ok(())
        } else {
            Err(OwningAtomicRefError::BorrowError)
        }
    }

    /// Non-blocking read acquisition of the lock-based discipline.
    pub fn try_read(&mut self) -> (r: Result<(), OwningShardedLockError>)
        requires
            old(self).wf(),
            old(self).shared_count() < usize::MAX,
        ensures
            r is Ok <==> old(self).spec_can_share(),
            r is Ok ==> *final(self) == old(self).shared_added(),
            r is Err ==> *final(self) == *old(self) && r == Err::<(), _>(
                OwningShardedLockError::WouldBlock,
            ),
            final(self).wf(),
    {
        if self.try_share() {
            Ok(())
        } else {
            Err(OwningShardedLockError::WouldBlock)
        }
    }

    /// Non-blocking write acquisition of the lock-based discipline.
    pub fn try_write(&mut self) -> (r: Result<(), OwningShardedLockError>)
        requires
            old(self).wf(),
        ensures
            r is Ok <==> old(self).spec_can_exclusive(),
            r is Ok ==> *final(self) == BorrowState::Exclusive,
            r is Err ==> *final(self) == *old(self) && r == Err::<(), _>(
                OwningShardedLockError::WouldBlock,
            ),
            final(self).wf(),
    {
        if self.try_exclusive() {
            Ok(())
        } else {
            Err(OwningShardedLockError::WouldBlock)
        }
    }
}

/// The state reached from `s` after `k` shared borrows are released.
pub open spec fn released_shared(s: BorrowState, k: nat) -> BorrowState
    decreases k,
{
    if k == 0 {
        s
    } else {
        released_shared(s.shared_removed(), (k - 1) as nat)
    }
}

/// Shared and exclusive guards never coexist: at most one exclusive guard is
/// alive, and while it is, no shared guard is.
pub proof fn lemma_exclusive_excludes_shared(s: BorrowState)
    requires
        s.wf(),
    ensures
        s.exclusive_count() <= 1,
        s.exclusive_count() == 0 || s.shared_count() == 0,
        s.shared_count() > 0 ==> s.exclusive_count() == 0,
{
}

/// An exclusive acquisition is possible exactly when no guard of either kind
/// is alive: while one is, both disciplines refuse it.
pub proof fn lemma_exclusive_needs_no_guard(s: BorrowState)
    requires
        s.wf(),
    ensures
        s.spec_can_exclusive() <==> (s.shared_count() == 0 && s.exclusive_count() == 0),
{
}

/// Once every shared guard of a cell is released, the cell is free again and
/// an exclusive acquisition succeeds.
pub proof fn lemma_release_all_shared(n: usize)
    requires
        n >= 1,
    ensures
        released_shared(BorrowState::Shared(n), n as nat) == BorrowState::Free,
        released_shared(BorrowState::Shared(n), n as nat).spec_can_exclusive(),
    decreases n,
{
    if n > 1 {
        lemma_release_all_shared((n - 1) as usize);
        assert(BorrowState::Shared(n).shared_removed() == BorrowState::Shared((n - 1) as usize));
    } else {
        assert(released_shared(BorrowState::Free, 0) == BorrowState::Free);
    }
}

/// Once the exclusive guard is released, either kind of acquisition succeeds.
pub proof fn lemma_release_exclusive_frees()
    ensures
        BorrowState::Free.spec_can_exclusive(),
        BorrowState::Free.spec_can_share(),
{
}

} // verus!
