//! The witness of a pin.
use vstd::prelude::*;
use core::marker::PhantomData;
use std::rc::Rc;

verus! {

/// A witness that a participant is pinned.
///
/// Every operation that hands out a [`Ptr`](crate::atomic::Ptr) borrows a
/// guard, so the pointer cannot outlive the pin. A guard remembers the
/// participant that made it. It is neither `Clone` nor `Copy`: it is given
/// back exactly once, to that participant. It is neither `Send` nor `Sync`:
/// a pin cannot leave the thread that announced it.
pub struct Guard {
    /// The slot of the participant that is pinned; `None` in the guard that
    /// pins nothing.
    local: Option<usize>,
    /// Keeps the guard on its thread.
    _marker: PhantomData<Rc<()>>,
}

impl Guard {
    /// The slot of the participant that the guard keeps pinned.
    pub closed spec fn owner(&self) -> Option<int> {
        match self.local {
            Some(entry) => Some(entry as int),
            None => None,
        }
    }

    /// Whether the guard stands for a real pin.
    pub open spec fn protected(&self) -> bool {
        self.owner() is Some
    }

    /// Whether the guard stands for a real pin; `false` for the guard that
    /// [`unprotected`] makes.
    pub fn is_protected(&self) -> (r: bool)
        ensures
            r == self.protected(),
    {
        self.local.is_some()
    }

    /// Tells whether the guard keeps the participant in the slot `entry`
    /// pinned.
    pub fn pins(&self, entry: usize) -> (r: bool)
        ensures
            r == (self.owner() == Some(entry as int)),
    {
        match self.local {
            Some(local) => local == entry,
            None => false,
        }
    }

    pub(crate) fn pinned(entry: usize) -> (guard: Guard)
        ensures
            guard.owner() == Some(entry as int),
    {
        Guard { local: Some(entry), _marker: PhantomData }
    }
}

/// Creates a dummy guard that pins nothing.
///
/// It serves where no other holder can touch the cells that are read through
/// it: while a structure is built or torn down.
pub fn unprotected() -> (guard: Guard)
    ensures
        !guard.protected(),
{
    Guard { local: None, _marker: PhantomData }
}

} // verus!
