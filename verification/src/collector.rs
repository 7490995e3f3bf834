//! The collector and its handles.
//!
//! A collector owns the global data. A handle is one participant of a
//! collector: it is made by [`Collector::handle`], pins itself to get a
//! [`Guard`], and is given back with [`Handle::unregister`].
//!
//! The collector has one owner at a time. Each operation of a handle borrows
//! the collector that made it for as long as it runs.
use vstd::prelude::*;
use crate::garbage::Bag;
use crate::garbage::Garbage;
use crate::garbage::MAX_OBJECTS;
use crate::guard::unprotected;
use crate::guard::Guard;
use crate::internal::destroyed;
use crate::internal::swept;
use crate::internal::Global;
use crate::internal::Local;
use crate::internal::PINS_BETWEEN_COLLECT;
use crate::epoch::state_epoch;
use crate::epoch::state_pinned;
use crate::epoch::wrap_add;
use crate::sync::list::max_nodes;

verus! {

/// An epoch-based garbage collector. Its view is its global data.
pub struct Collector {
    global: Global,
}

impl View for Collector {
    type V = Global;

    closed spec fn view(&self) -> Global {
        self.global
    }
}

/// A handle to a garbage collector: one participant. Its view is the data of
/// the participant.
pub struct Handle {
    local: Local,
}

impl View for Handle {
    type V = Local;

    closed spec fn view(&self) -> Local {
        self.local
    }
}

impl Collector {
    /// Creates a new collector: no participant, no garbage, epoch 0.
    pub fn new() -> (collector: Self)
        ensures
            collector@.wf(),
            collector@.epoch() == 0,
            collector@.bags() == Seq::<(usize, Bag)>::empty(),
            collector@.slots() == 0,
            forall|slot: int| !collector@.live(slot),
    {
        Collector { global: Global::new() }
    }

    /// Collects several bags from the global garbage queue and destroys
    /// their objects, as [`Global::collect`] does, without a pin.
    pub fn collect(&mut self)
        requires
            old(self)@.wf(),
        ensures
            final(self)@.follows(&old(self)@),
            final(self)@.wf(),
            final(self)@.epoch() == old(self)@.advanced(),
            final(self)@.bags() == swept(old(self)@.bags(), old(self)@.advanced()),
            destroyed(old(self)@.bags(), old(self)@.advanced()),
            final(self)@.same_participants(&old(self)@),
    {
        let guard = unprotected();
        self.global.collect(&guard);
    }

    /// Creates a new handle for the collector.
    pub fn handle(&mut self) -> (handle: Handle)
        requires
            old(self)@.wf(),
            old(self)@.slots() < max_nodes(),
        ensures
            final(self)@.follows(&old(self)@),
            final(self)@.wf(),
            handle@.wf(&final(self)@),
            !old(self)@.live(handle@.entry()),
            handle@.depth() == 0,
            handle@.pins() == 0,
            handle@.bag()@ == Seq::<Garbage>::empty(),
            old(self)@.slots() <= final(self)@.slots() <= old(self)@.slots() + 1,
            final(self)@.state(handle@.entry()) == 0,
            forall|s: int| s != handle@.entry() ==> final(self)@.live(s) == old(self)@.live(s),
            forall|s: int|
                0 <= s < old(self)@.slots() && s != handle@.entry() ==> final(self)@.state(s)
                    == old(self)@.state(s),
            final(self)@.epoch() == old(self)@.epoch(),
            final(self)@.bags() == old(self)@.bags(),
    {
        Handle::new(&mut self.global)
    }

    /// Destroys the collector: runs every piece of garbage of every bag
    /// that is still in the queue.
    pub fn destroy(self)
        requires
            self@.wf(),
        ensures
            forall|i: int| 0 <= i < self@.bags().len() ==> (#[trigger] self@.bags()[i]).1.all_run(),
    {
        self.global.destroy()
    }

    /// Tells whether another handle can be made: the registry has room for
    /// one more entry.
    pub fn can_register(&self) -> (room: bool)
        ensures
            room == (self@.slots() < max_nodes()),
    {
        self.global.can_register()
    }

    /// Returns the global epoch.
    pub fn epoch(&self) -> (epoch: usize)
        ensures
            epoch == self@.epoch(),
    {
        self.global.get_epoch()
    }
}

impl Handle {
    fn new(global: &mut Global) -> (handle: Self)
        requires
            old(global).wf(),
            old(global).slots() < max_nodes(),
        ensures
            final(global).follows(old(global)),
            final(global).wf(),
            handle@.wf(final(global)),
            !old(global).live(handle@.entry()),
            handle@.depth() == 0,
            handle@.pins() == 0,
            handle@.bag()@ == Seq::<Garbage>::empty(),
            old(global).slots() <= final(global).slots() <= old(global).slots() + 1,
            final(global).state(handle@.entry()) == 0,
            forall|s: int| s != handle@.entry() ==> final(global).live(s) == old(global).live(s),
            forall|s: int|
                0 <= s < old(global).slots() && s != handle@.entry() ==> final(global).state(s)
                    == old(global).state(s),
            final(global).epoch() == old(global).epoch(),
            final(global).bags() == old(global).bags(),
    {
        let local = Local::new(global);
        Handle { local: local }
    }

    /// Pins the handle and returns the guard that keeps it pinned.
    ///
    /// Pinning is reentrant: a nested pin only counts its guard. The first
    /// pin counts the pinning and announces the global epoch; if the number
    /// of pinnings, this one included, is a multiple of
    /// [`PINS_BETWEEN_COLLECT`], it then collects some global garbage.
    pub fn pin(&mut self, collector: &mut Collector) -> (guard: Guard)
        requires
            old(collector)@.wf(),
            old(self)@.wf(&old(collector)@),
            old(self)@.depth() < usize::MAX,
        ensures
            final(collector)@.follows(&old(collector)@),
            final(collector)@.wf(),
            final(self)@.wf(&final(collector)@),
            guard.owner() == Some(old(self)@.entry()),
            final(self)@.entry() == old(self)@.entry(),
            final(self)@.bag() == old(self)@.bag(),
            final(self)@.depth() == old(self)@.depth() + 1,
            final(collector)@.same_others(&old(collector)@, old(self)@.entry()),
            old(self)@.depth() > 0 ==> ({
                &&& final(self)@.pins() == old(self)@.pins()
                &&& final(collector)@.state(old(self)@.entry()) == old(collector)@.state(
                    old(self)@.entry(),
                )
                &&& final(collector)@.epoch() == old(collector)@.epoch()
                &&& final(collector)@.bags() == old(collector)@.bags()
            }),
            old(self)@.depth() == 0 ==> ({
                &&& final(self)@.pins() == wrap_add(old(self)@.pins(), 1)
                &&& final(collector)@.state(old(self)@.entry()) == old(collector)@.epoch() | 1
                &&& state_epoch(final(collector)@.state(old(self)@.entry()))
                    == old(collector)@.epoch()
            }),
            old(self)@.depth() == 0
                && wrap_add(old(self)@.pins(), 1) % PINS_BETWEEN_COLLECT != 0 ==> ({
                &&& final(collector)@.epoch() == old(collector)@.epoch()
                &&& final(collector)@.bags() == old(collector)@.bags()
            }),
            old(self)@.depth() == 0
                && wrap_add(old(self)@.pins(), 1) % PINS_BETWEEN_COLLECT == 0 ==> ({
                &&& final(collector)@.epoch() == old(collector)@.advanced()
                &&& final(collector)@.bags() == swept(
                    old(collector)@.bags(),
                    old(collector)@.advanced(),
                )
                &&& destroyed(old(collector)@.bags(), old(collector)@.advanced())
            }),
    {
        self.local.pin(&mut collector.global)
    }

    /// Returns `true` if the handle is pinned.
    pub fn is_pinned(&self) -> (pinned: bool)
        ensures
            pinned == (self@.depth() > 0),
    {
        self.local.is_pinned()
    }

    /// Tells whether `guard` keeps this handle pinned.
    pub fn made(&self, guard: &Guard) -> (r: bool)
        ensures
            r == (guard.owner() == Some(self@.entry())),
    {
        self.local.made(guard)
    }

    /// Returns the number of guards that keep the handle pinned.
    pub fn guards(&self) -> (count: usize)
        ensures
            count == self@.depth(),
    {
        self.local.guards()
    }

    /// Tells whether the handle is a participant of `collector` and its
    /// entry agrees with its guards.
    pub fn is_registered(&self, collector: &Collector) -> (registered: bool)
        requires
            collector@.wf(),
        ensures
            registered == self@.wf(&collector@),
    {
        self.local.is_registered(&collector.global)
    }

    /// Gives the handle back: takes the participant out of the collector and
    /// hands its bag to the global queue.
    ///
    /// The handle pins itself, collects some global garbage, marks its entry
    /// as deleted, pushes its bag onto the queue, marked with the epoch, and
    /// unpins. Its own pin collects first if the number of pinnings, that
    /// one included, is a multiple of [`PINS_BETWEEN_COLLECT`]; the epoch
    /// advances at most once all the same, because from then on the handle
    /// itself holds it back.
    pub fn unregister(self, collector: &mut Collector)
        requires
            old(collector)@.wf(),
            self@.wf(&old(collector)@),
            self@.depth() == 0,
        ensures
            final(collector)@.follows(&old(collector)@),
            final(collector)@.wf(),
            !final(collector)@.live(self@.entry()),
            final(collector)@.same_others(&old(collector)@, self@.entry()),
            final(collector)@.state(self@.entry()) == 0,
            final(collector)@.epoch() == old(collector)@.advanced(),
            destroyed(old(collector)@.bags(), old(collector)@.advanced()),
            wrap_add(self@.pins(), 1) % PINS_BETWEEN_COLLECT != 0
                ==> final(collector)@.bags() == swept(
                old(collector)@.bags(),
                old(collector)@.advanced(),
            ).push((old(collector)@.advanced(), self@.bag())),
            wrap_add(self@.pins(), 1) % PINS_BETWEEN_COLLECT == 0 ==> ({
                &&& final(collector)@.bags() == swept(
                    swept(old(collector)@.bags(), old(collector)@.advanced()),
                    old(collector)@.advanced(),
                ).push((old(collector)@.advanced(), self@.bag()))
                &&& destroyed(
                    swept(old(collector)@.bags(), old(collector)@.advanced()),
                    old(collector)@.advanced(),
                )
            }),
    {
        self.local.unregister(&mut collector.global);
    }
}

impl Guard {
    /// Stores a function so that it is executed at some point after all
    /// currently pinned participants get unpinned.
    ///
    /// The function goes into the bag of the handle, as the newest piece. If
    /// the bag is full, it is first handed to the global queue, marked with
    /// the current epoch. From an [`unprotected`] guard the function is
    /// executed at once and nothing else changes.
    pub fn defer<F: FnOnce() + Send + 'static>(
        &self,
        handle: &mut Handle,
        collector: &mut Collector,
        f: F,
    )
        requires
            old(collector)@.wf(),
            self.protected() ==> self.owner() == Some(old(handle)@.entry()),
            f.requires(()),
        ensures
            final(collector)@.follows(&old(collector)@),
            final(collector)@.wf(),
            final(handle)@.entry() == old(handle)@.entry(),
            final(handle)@.depth() == old(handle)@.depth(),
            final(handle)@.pins() == old(handle)@.pins(),
            final(collector)@.same_participants(&old(collector)@),
            final(collector)@.epoch() == old(collector)@.epoch(),
            !self.protected() ==> ({
                &&& f.ensures((), ())
                &&& *final(handle) == *old(handle)
                &&& *final(collector) == *old(collector)
            }),
            self.protected() ==> ({
                &&& final(handle)@.bag()@.len() > 0
                &&& final(handle)@.bag()@.last().promise() == f.ensures((), ())
            }),
            self.protected() && old(handle)@.bag()@.len() < MAX_OBJECTS ==> ({
                &&& final(handle)@.bag()@.drop_last() == old(handle)@.bag()@
                &&& final(collector)@.bags() == old(collector)@.bags()
            }),
            self.protected() && old(handle)@.bag()@.len() >= MAX_OBJECTS ==> ({
                &&& final(handle)@.bag()@.len() == 1
                &&& final(collector)@.bags() == old(collector)@.bags().push(
                    (old(collector)@.epoch(), old(handle)@.bag()),
                )
            }),
    {
        if self.is_protected() {
            let garbage = Garbage::new(f);
            handle.local.defer(&mut collector.global, garbage, self);
            proof {
                let before = old(handle)@.bag()@;
                if before.len() < MAX_OBJECTS {
                    assert(before.push(garbage).drop_last() =~= before);
                }
            }
        } else {
            f();
        }
    }

    /// Moves the bag of the handle into the global queue if it is not empty,
    /// and collects some global garbage. From an [`unprotected`] guard it
    /// does nothing.
    pub fn flush(&self, handle: &mut Handle, collector: &mut Collector)
        requires
            old(collector)@.wf(),
            self.protected() ==> self.owner() == Some(old(handle)@.entry()),
        ensures
            final(collector)@.follows(&old(collector)@),
            final(collector)@.wf(),
            final(handle)@.entry() == old(handle)@.entry(),
            final(handle)@.depth() == old(handle)@.depth(),
            final(handle)@.pins() == old(handle)@.pins(),
            final(collector)@.same_participants(&old(collector)@),
            !self.protected() ==> ({
                &&& *final(handle) == *old(handle)
                &&& *final(collector) == *old(collector)
            }),
            self.protected() ==> ({
                &&& final(handle)@.bag()@ == Seq::<Garbage>::empty()
                &&& final(collector)@.epoch() == old(collector)@.advanced()
            }),
            self.protected() && old(handle)@.bag()@.len() == 0 ==> ({
                &&& final(collector)@.bags() == swept(
                    old(collector)@.bags(),
                    old(collector)@.advanced(),
                )
                &&& destroyed(old(collector)@.bags(), old(collector)@.advanced())
            }),
            self.protected() && old(handle)@.bag()@.len() > 0 ==> ({
                &&& final(collector)@.bags() == swept(
                    old(collector)@.bags().push((old(collector)@.epoch(), old(handle)@.bag())),
                    old(collector)@.advanced(),
                )
                &&& destroyed(
                    old(collector)@.bags().push((old(collector)@.epoch(), old(handle)@.bag())),
                    old(collector)@.advanced(),
                )
            }),
    {
        if self.is_protected() {
            handle.local.flush(&mut collector.global, self);
        }
    }

    /// Gives the guard back to the handle that made it. When the last guard
    /// of a handle is given back, the handle is unpinned and its state word
    /// is 0: nested guards unpin it exactly when the outermost one is given
    /// back, and until then the state word stays as it is. An
    /// [`unprotected`] guard is given back to nobody and nothing changes.
    pub fn unpin(self, handle: &mut Handle, collector: &mut Collector)
        requires
            old(collector)@.wf(),
            self.protected() ==> ({
                &&& self.owner() == Some(old(handle)@.entry())
                &&& old(handle)@.wf(&old(collector)@)
                &&& old(handle)@.depth() > 0
            }),
        ensures
            final(collector)@.follows(&old(collector)@),
            final(collector)@.wf(),
            final(handle)@.entry() == old(handle)@.entry(),
            final(handle)@.bag() == old(handle)@.bag(),
            final(handle)@.pins() == old(handle)@.pins(),
            final(collector)@.same_others(&old(collector)@, old(handle)@.entry()),
            final(collector)@.epoch() == old(collector)@.epoch(),
            final(collector)@.bags() == old(collector)@.bags(),
            !self.protected() ==> ({
                &&& *final(handle) == *old(handle)
                &&& *final(collector) == *old(collector)
            }),
            self.protected() && old(handle)@.depth() == 1
                ==> final(collector)@.state(old(handle)@.entry()) == 0,
            self.protected() && old(handle)@.depth() > 1
                ==> final(collector)@.state(old(handle)@.entry()) == old(collector)@.state(
                old(handle)@.entry(),
            ),
            self.protected() ==> ({
                &&& final(handle)@.wf(&final(collector)@)
                &&& final(handle)@.depth() == old(handle)@.depth() - 1
                &&& state_pinned(final(collector)@.state(old(handle)@.entry()))
                    == (old(handle)@.depth() > 1)
            }),
    {
        if self.is_protected() {
            handle.local.unpin(&mut collector.global);
        }
    }
}

} // verus!
