//! Values that are set once, and locks that keep interrupts out.
use vstd::prelude::*;

verus! {

/// A value that is put in place once.
pub struct Singleton<T> {
    inner: Option<T>,
}

impl<T> Singleton<T> {
    /// The value, once it is in place.
    pub closed spec fn view(&self) -> Option<T> {
        self.inner
    }

    /// A place without a value.
    pub fn new() -> (s: Self)
        ensures
            s@ is None,
    {
        Singleton { inner: None }
    }

    /// Puts the value in place.
    pub fn install(&mut self, value: T)
        requires
            old(self)@ is None,
        ensures
            final(self)@ == Some(value),
    {
        self.inner = Some(value);
    }

    /// Whether the value is in place.
    pub fn is_installed(&self) -> (r: bool)
        ensures
            r == (self@ is Some),
    {
        self.inner.is_some()
    }

    /// Hands the value out to be used or changed.
    pub fn with<F, R>(&mut self, f: F) -> (r: R) where F: FnOnce(&mut T) -> R
        requires
            old(self)@ is Some,
            forall|t: &mut T| *t == old(self)@.unwrap() ==> #[trigger] f.requires((t,)),
        ensures
            final(self)@ is Some,
            exists|t: &mut T|
                *t == old(self)@.unwrap() && *final(t) == final(self)@.unwrap()
                    && #[trigger] f.ensures((t,), r),
    {
        f(self.inner.as_mut().unwrap())
    }
}

/// A lock whose holder runs with interrupts disabled.
///
/// This is the state of the lock, and what its operations do to it and ask of
/// the processor. An operation takes effect at once, as a whole.
#[derive(Debug, Clone, Copy, PartialEq, Eq, Structural)]
pub struct IntLock {
    locked: bool,
    saved_if: bool,
}

impl IntLock {
    /// Someone holds the lock.
    pub closed spec fn held(self) -> bool {
        self.locked
    }

    /// Whether interrupts were enabled when the lock was last taken.
    pub closed spec fn saved(self) -> bool {
        self.saved_if
    }

    /// A lock that nobody holds.
    pub fn new() -> (lock: Self)
        ensures
            !lock.held(),
            !lock.saved(),
    {
        IntLock { locked: false, saved_if: false }
    }

    /// Takes the lock if nobody holds it, and notes whether interrupts are
    /// enabled. Whoever takes it then disables them.
    pub fn try_lock(&mut self, if_enabled: bool) -> (taken: bool)
        ensures
            attempted(*old(self), if_enabled, taken, *final(self)),
            taken == !old(self).held(),
            final(self).held(),
            final(self).saved() == (if taken {
                if_enabled
            } else {
                old(self).saved()
            }),
    {
        if self.locked {
            return false;
        }
        self.locked = true;
        self.saved_if = if_enabled;
        true
    }

    /// Gives the lock back. Says whether interrupts are to be enabled again.
    pub fn unlock(&mut self) -> (restore: bool)
        requires
            old(self).held(),
        ensures
            given_back(*old(self), restore, *final(self)),
            !final(self).held(),
            restore == old(self).saved(),
    {
        let restore: bool = self.saved_if;
        self.locked = false;
        restore
    }

    /// Whether someone holds the lock.
    pub fn is_locked(&self) -> (r: bool)
        ensures
            r == self.held(),
    {
        self.locked
    }

    /// The state as a number, to be kept in an atomic variable.
    pub open spec fn number(self) -> u8 {
        let low: u8 = if self.held() {
            1
        } else {
            0
        };
        let high: u8 = if self.saved() {
            2
        } else {
            0
        };
        (low + high) as u8
    }

    /// The state as a number.
    pub fn to_number(self) -> (n: u8)
        ensures
            n == self.number(),
            n < 4,
            self.held() == (n % 2 == 1),
            self.saved() == (n >= 2),
    {
        let low: u8 = if self.locked {
            1
        } else {
            0
        };
        let high: u8 = if self.saved_if {
            2
        } else {
            0
        };
        low + high
    }

    /// The state that a number stands for.
    pub fn from_number(n: u8) -> (lock: Self)
        ensures
            lock.held() == (n % 2 == 1),
            lock.saved() == ((n / 2) % 2 == 1),
            n < 4 ==> lock.number() == n,
    {
        IntLock { locked: n % 2 == 1, saved_if: (n / 2) % 2 == 1 }
    }
}

/// An attempt to take a lock: whether it was taken, and the lock before and
/// after.
pub open spec fn attempted(
    before: IntLock,
    if_enabled: bool,
    taken: bool,
    after: IntLock,
) -> bool {
    &&& taken == !before.held()
    &&& after.held()
    &&& after.saved() == if taken {
        if_enabled
    } else {
        before.saved()
    }
}

/// A lock is given back: whether interrupts are to be enabled again, and the
/// lock before and after.
pub open spec fn given_back(before: IntLock, restore: bool, after: IntLock) -> bool {
    &&& !after.held()
    &&& after.saved() == before.saved()
    &&& restore == before.saved()
}

/// Once a lock that was taken is given back, interrupts are to be enabled if
/// and only if they were enabled when it was taken, whoever tried to take it in
/// between, and the lock can be taken again.
pub proof fn law_lock_restores_interrupts(
    free: IntLock,
    if_enabled: bool,
    held: IntLock,
    other: bool,
    taken_twice: bool,
    still_held: IntLock,
    restore: bool,
    free_again: IntLock,
)
    requires
        attempted(free, if_enabled, true, held),
        attempted(held, other, taken_twice, still_held),
        given_back(still_held, restore, free_again),
    ensures
        !taken_twice,
        restore == if_enabled,
        !free_again.held(),
{
}

} // verus!
