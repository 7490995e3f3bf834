//! Epoch-based memory reclamation: the single-owner core.
//!
//! Objects that are removed from a shared structure cannot be destroyed at
//! once: a reader may still hold a pointer to them. They are stashed away as
//! garbage and destroyed when no reader that could have seen them is left.
//! This crate holds the rules that decide when that is:
//!
//! * [`atomic`]: pointer words that carry a small tag in their unused low
//!   bits, and the cell that holds one.
//! * [`epoch`]: the global epoch, a point on a circle that moves in steps of
//!   two; the state word that each participant announces; and the attempt to
//!   advance the epoch.
//! * [`deferred`] and [`garbage`]: functions that wait to be run once, and
//!   bags of them.
//! * [`sync`]: the list of the participants' entries and the queue of bags.
//! * [`internal`]: the global data and the data of one participant, with the
//!   paths that pin, unpin, defer, flush and collect.
//! * [`collector`] and [`guard`]: the collector, its handles, and the guard
//!   that witnesses a pin.
//!
//! # One owner
//!
//! Every value of this crate has one owner at a time, and an operation that
//! changes a value borrows it mutably. So each operation is one step that
//! nothing interleaves with, and its contract says exactly what the step
//! does. Memory orderings are part of the interface of the cells, but with
//! one owner every ordering gives the same result, and no fence is needed.
//! A program that shares a collector between threads keeps it behind a lock.
//!
//! # What is proved
//!
//! Every function is verified against its contract. On top of the contracts:
//!
//! * A tag and an aligned address that are packed into one word come out
//!   again unchanged ([`atomic::lemma_tag_round_trip`]).
//! * The global epoch is even and only ever moves to the next epoch
//!   ([`epoch::lemma_next_epoch_even`], [`epoch::Epoch::try_advance`]).
//! * A participant that is pinned has seen at most one advancement, and no
//!   bag is destroyed under a participant that was pinned when the bag was
//!   tagged ([`internal::Global::lemma_pinned_within_one`],
//!   [`internal::Global::lemma_reclaimable_unseen`]).
//! * In every history, that is however the participants take their turns, a
//!   deferred function does not run before every participant that was
//!   pinned when it was deferred has unpinned
//!   ([`internal::Global::lemma_safety`]); every operation that changes the
//!   global data states the step that histories are made of
//!   ([`internal::Global::follows`]).
//! * While nobody holds the epoch back, every bag is destroyed in the end
//!   ([`internal::lemma_queue_drains`]).
//! * A traversal of the list returns every entry that is linked and not
//!   deleted, once ([`sync::list::List::traverse`]).
//! * Destroying a bag runs every piece of garbage in it
//!   ([`garbage::Bag::run`]).
pub mod atomic;
pub mod collector;
pub mod deferred;
pub mod epoch;
pub mod garbage;
pub mod guard;
pub mod internal;
pub mod padded;
pub mod sync;
