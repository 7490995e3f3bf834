//! The global data and the data of one participant.
//!
//! # Registration
//!
//! Every participant has an entry in the registry, a list that the global
//! data owns. The entry holds the participant's state word. It is inserted
//! when the participant is made and marked as deleted when it leaves.
//!
//! # Pinning
//!
//! A participant that is about to read shared pointers pins itself: it writes
//! the global epoch, with the pinned bit set, into its entry. While it stays
//! pinned the global epoch can advance at most once, so garbage that is
//! handed over from now on is not destroyed under it.
//!
//! # Garbage
//!
//! A participant collects garbage in a bag of its own. A full bag is marked
//! with the global epoch and pushed onto the global queue. `collect` tries to
//! advance the epoch and destroys the bags at the front of the queue that are
//! more than one advancement old.
use vstd::prelude::*;
use core::marker::PhantomData;
use std::rc::Rc;
use crate::atomic::Order;
use crate::epoch::distance;
use crate::epoch::is_live;
use crate::epoch::is_reclaimable;
use crate::epoch::may_advance;
use crate::epoch::next_epoch;
use crate::epoch::reclaimable;
use crate::epoch::state_epoch;
use crate::epoch::state_pinned;
use crate::epoch::wrap_add;
use crate::epoch::Epoch;
use crate::epoch::LocalEpoch;
use crate::garbage::Bag;
use crate::garbage::Garbage;
use crate::garbage::MAX_OBJECTS;
use crate::guard::Guard;
use crate::sync::list::max_nodes;
use crate::sync::list::List;
use crate::sync::queue::Queue;

verus! {

/// Number of bags that one `collect` destroys at most.
pub const COLLECT_STEPS: usize = 8;

/// Number of pinnings after which a participant collects some global garbage.
pub const PINS_BETWEEN_COLLECT: usize = 128;

/// A participant that announced `announced` has seen at most one advancement
/// when the global epoch is `epoch`.
pub open spec fn within_one(epoch: usize, announced: usize) -> bool {
    epoch == announced || epoch == next_epoch(announced)
}

/// The number of bags at the front of `bags` that `collect` destroys at the
/// epoch `now` when it may take `limit` steps: those before the first bag
/// that is not yet reclaimable.
pub open spec fn ripe(bags: Seq<(usize, Bag)>, now: usize, limit: nat) -> nat
    decreases limit,
{
    if limit == 0 || bags.len() == 0 || !reclaimable(now, bags[0].0) {
        0
    } else {
        1 + ripe(bags.skip(1), now, (limit - 1) as nat)
    }
}

/// Whether every piece of garbage in the bags that one `collect` at the
/// epoch `now` destroys of the queue `bags` has run.
pub open spec fn destroyed(bags: Seq<(usize, Bag)>, now: usize) -> bool {
    forall|i: int|
        0 <= i < ripe(bags, now, COLLECT_STEPS as nat) ==> (#[trigger] bags[i]).1.all_run()
}

/// What one `collect` at the epoch `now` leaves of the queue `bags`.
pub open spec fn swept(bags: Seq<(usize, Bag)>, now: usize) -> Seq<(usize, Bag)> {
    bags.skip(ripe(bags, now, COLLECT_STEPS as nat) as int)
}

/// The bags that `collect` destroys are at the front of the queue, at most
/// `limit`, and each of them is reclaimable; the first bag that stays, if
/// `collect` did not run out of steps, is not.
pub proof fn lemma_ripe(bags: Seq<(usize, Bag)>, now: usize, limit: nat)
    ensures
        ripe(bags, now, limit) <= limit,
        ripe(bags, now, limit) <= bags.len(),
        forall|i: int| 0 <= i < ripe(bags, now, limit) ==> reclaimable(now, (#[trigger] bags[i]).0),
        ripe(bags, now, limit) < limit && ripe(bags, now, limit) < bags.len() ==> !reclaimable(
            now,
            bags[ripe(bags, now, limit) as int].0,
        ),
    decreases limit,
{
    if limit == 0 || bags.len() == 0 || !reclaimable(now, bags[0].0) {
    } else {
        let rest = bags.skip(1);
        lemma_ripe(rest, now, (limit - 1) as nat);
        assert forall|i: int| 0 <= i < ripe(bags, now, limit) implies reclaimable(
            now,
            (#[trigger] bags[i]).0,
        ) by {
            if i > 0 {
                assert(bags[i] == rest[i - 1]);
            }
        }
        let k = ripe(rest, now, (limit - 1) as nat);
        if k < limit - 1 && k < rest.len() {
            assert(rest[k as int] == bags[k as int + 1]);
        }
    }
}

/// The epoch and the queue after `n` calls of `collect`, each of which
/// advances the epoch, when nothing else happens in between.
pub open spec fn collected(epoch: usize, bags: Seq<(usize, Bag)>, n: nat) -> (
    usize,
    Seq<(usize, Bag)>,
)
    decreases n,
{
    if n == 0 {
        (epoch, bags)
    } else {
        collected(next_epoch(epoch), swept(bags, next_epoch(epoch)), (n - 1) as nat)
    }
}

/// One `collect` leaves a tail of the queue, and takes the front bag if that
/// is reclaimable.
pub proof fn lemma_swept(bags: Seq<(usize, Bag)>, now: usize)
    ensures
        swept(bags, now).len() <= bags.len(),
        forall|i: int|
            0 <= i < swept(bags, now).len() ==> (#[trigger] swept(bags, now)[i]) == bags[i
                + bags.len() - swept(bags, now).len()],
        swept(bags, now).len() == bags.len() ==> swept(bags, now) == bags,
        bags.len() > 0 && reclaimable(now, bags[0].0) ==> swept(bags, now).len() < bags.len(),
{
    lemma_ripe(bags, now, COLLECT_STEPS as nat);
    if swept(bags, now).len() == bags.len() {
        assert(swept(bags, now) =~= bags);
    }
}

proof fn lemma_collected_shrinks(epoch: usize, bags: Seq<(usize, Bag)>, n: nat)
    requires
        forall|i: int| 0 <= i < bags.len() ==> (#[trigger] bags[i]).0 % 2 == 0,
    ensures
        collected(epoch, bags, n).1.len() <= bags.len(),
        forall|i: int|
            0 <= i < collected(epoch, bags, n).1.len() ==> (#[trigger] collected(
                epoch,
                bags,
                n,
            ).1[i]).0 % 2 == 0,
    decreases n,
{
    if n > 0 {
        let now = next_epoch(epoch);
        let rest = swept(bags, now);
        lemma_swept(bags, now);
        assert forall|i: int| 0 <= i < rest.len() implies (#[trigger] rest[i]).0 % 2 == 0 by {
            assert(rest[i] == bags[i + bags.len() - rest.len()]);
        }
        lemma_collected_shrinks(now, rest, (n - 1) as nat);
    }
}

proof fn lemma_collected_adds(epoch: usize, bags: Seq<(usize, Bag)>, n: nat, m: nat)
    ensures
        collected(epoch, bags, n + m) == collected(
            collected(epoch, bags, n).0,
            collected(epoch, bags, n).1,
            m,
        ),
    decreases n,
{
    if n > 0 {
        let now = next_epoch(epoch);
        lemma_collected_adds(now, swept(bags, now), (n - 1) as nat, m);
    }
}

proof fn lemma_collected_even(epoch: usize, bags: Seq<(usize, Bag)>, n: nat)
    requires
        epoch % 2 == 0,
    ensures
        collected(epoch, bags, n).0 % 2 == 0,
    decreases n,
{
    if n > 0 {
        let now = next_epoch(epoch);
        lemma_collected_even(now, swept(bags, now), (n - 1) as nat);
    }
}

proof fn lemma_four_collects(epoch: usize, bags: Seq<(usize, Bag)>)
    requires
        bags.len() > 0,
        epoch % 2 == 0,
        forall|i: int| 0 <= i < bags.len() ==> (#[trigger] bags[i]).0 % 2 == 0,
    ensures
        collected(epoch, bags, 4).1.len() < bags.len(),
{
    let tag = bags[0].0;
    let e1 = next_epoch(epoch);
    let e2 = next_epoch(e1);
    let e3 = next_epoch(e2);
    let e4 = next_epoch(e3);
    assert(reclaimable(e1, tag) || reclaimable(e4, tag));
    let b1 = swept(bags, e1);
    let b2 = swept(b1, e2);
    let b3 = swept(b2, e3);
    let b4 = swept(b3, e4);
    lemma_swept(bags, e1);
    lemma_swept(b1, e2);
    lemma_swept(b2, e3);
    lemma_swept(b3, e4);
    assert(collected(epoch, bags, 4) == collected(e1, b1, 3));
    assert(collected(e1, b1, 3) == collected(e2, b2, 2));
    assert(collected(e2, b2, 2) == collected(e3, b3, 1));
    assert(collected(e3, b3, 1) == collected(e4, b4, 0));
    assert(collected(e4, b4, 0) == (e4, b4));
}

/// Every bag is destroyed in the end.
///
/// While no participant holds the epoch back, so that every `collect`
/// advances it, and no new bag is pushed, four calls of `collect` for each
/// bag in the queue leave the queue empty.
pub proof fn lemma_queue_drains(epoch: usize, bags: Seq<(usize, Bag)>)
    requires
        epoch % 2 == 0,
        forall|i: int| 0 <= i < bags.len() ==> (#[trigger] bags[i]).0 % 2 == 0,
    ensures
        collected(epoch, bags, 4 * bags.len()).1.len() == 0,
    decreases bags.len(),
{
    if bags.len() > 0 {
        let after = collected(epoch, bags, 4);
        lemma_four_collects(epoch, bags);
        lemma_collected_shrinks(epoch, bags, 4);
        lemma_collected_even(epoch, bags, 4);
        lemma_queue_drains(after.0, after.1);
        let rest = (4 * after.1.len()) as nat;
        let more = (4 * bags.len() - 4 - rest) as nat;
        lemma_collected_adds(epoch, bags, 4, rest);
        lemma_collected_adds(epoch, bags, 4 + rest, more);
        let drained = collected(epoch, bags, 4 + rest);
        lemma_collected_shrinks(epoch, bags, 4 + rest);
        lemma_collected_shrinks(drained.0, drained.1, more);
        assert(4 + rest + more == 4 * bags.len());
    }
}

/// The global data for epoch-based memory reclamation.
pub struct Global {
    /// The list of the participants' entries.
    registries: List<LocalEpoch>,
    /// The queue of bags of garbage, each with the epoch it was pushed in.
    garbages: Queue<(usize, Bag)>,
    /// The global epoch.
    epoch: Epoch,
    /// How many of the slots that wait in the registry, counted from the
    /// one that has waited longest, were unlinked by the time the epoch was
    /// `sealed_at`. They are given free once the epoch is more than one
    /// advancement past it; the others are sealed after them.
    sealed: usize,
    /// The epoch at which the sealed slots were sealed.
    sealed_at: usize,
}

impl Global {
    /// The global epoch.
    pub closed spec fn epoch(&self) -> usize {
        self.epoch@
    }

    /// The bags in the queue, oldest first, each with its epoch.
    pub closed spec fn bags(&self) -> Seq<(usize, Bag)> {
        self.garbages@
    }

    /// The number of slots of the registry.
    pub closed spec fn slots(&self) -> int {
        self.registries.slots()
    }

    /// Whether the slot `slot` holds a participant that counts: it is
    /// registered and has not left.
    pub closed spec fn live(&self, slot: int) -> bool {
        is_live(&self.registries, slot)
    }

    /// The state word of the entry in the slot `slot`.
    pub closed spec fn state(&self, slot: int) -> usize {
        self.registries.node(slot).payload()@
    }

    /// Whether the epoch may advance: every participant that is pinned has
    /// been pinned in the current epoch.
    pub open spec fn may_advance(&self) -> bool {
        forall|slot: int|
            self.live(slot) && state_pinned(#[trigger] self.state(slot)) ==> state_epoch(
                self.state(slot),
            ) == self.epoch()
    }

    /// The epoch after an attempt to advance.
    pub open spec fn advanced(&self) -> usize {
        if self.may_advance() {
            next_epoch(self.epoch())
        } else {
            self.epoch()
        }
    }

    /// The data are well formed: the registry and the queue are, the epoch is
    /// even, and every pinned participant has seen at most one advancement.
    pub closed spec fn wf(&self) -> bool {
        &&& self.registries.wf()
        &&& self.garbages.wf()
        &&& self.epoch@ % 2 == 0
        &&& self.sealed <= self.registries.parked().len()
        &&& forall|i: int| 0 <= i < self.garbages@.len()
            ==> (#[trigger] self.garbages@[i]).0 % 2 == 0
        &&& forall|slot: int|
            is_live(&self.registries, slot) && state_pinned(
                #[trigger] self.registries.node(slot).payload()@,
            ) ==> within_one(self.epoch@, state_epoch(self.registries.node(slot).payload()@))
    }

    /// Whether `self` and `other` have the same participants in the same
    /// states.
    pub open spec fn same_participants(&self, other: &Global) -> bool {
        &&& self.slots() == other.slots()
        &&& forall|slot: int| self.live(slot) == other.live(slot)
        &&& forall|slot: int| 0 <= slot < self.slots() ==> self.state(slot) == other.state(slot)
    }

    /// Whether `self` and `other` have the same participants in the same
    /// states but for the slot `slot`.
    pub open spec fn same_others(&self, other: &Global, slot: int) -> bool {
        &&& self.slots() == other.slots()
        &&& forall|s: int| s != slot ==> self.live(s) == other.live(s)
        &&& forall|s: int| 0 <= s < self.slots() && s != slot ==> self.state(s) == other.state(s)
    }

    /// A participant that counts has a slot.
    pub proof fn lemma_live_in_slots(&self, slot: int)
        requires
            self.wf(),
            self.live(slot),
        ensures
            0 <= slot < self.slots(),
            self.slots() <= max_nodes(),
    {
        self.registries.lemma_order_in_arena();
    }

    /// In well-formed data the epoch and the tags of the bags are even, and
    /// every participant that counts and is pinned has seen at most one
    /// advancement: the global epoch is the one it announced or the next.
    pub proof fn lemma_pinned_within_one(&self, slot: int)
        requires
            self.wf(),
        ensures
            self.epoch() % 2 == 0,
            forall|i: int| 0 <= i < self.bags().len() ==> (#[trigger] self.bags()[i]).0 % 2 == 0,
            self.live(slot) && state_pinned(self.state(slot)) ==> within_one(
                self.epoch(),
                state_epoch(self.state(slot)),
            ),
    {
    }

    /// No bag is destroyed under a participant that was pinned when the bag
    /// was tagged.
    ///
    /// When a bag tagged with the epoch `tag` is reclaimable, a participant
    /// that counts and is pinned is more than one advancement away from
    /// `tag`, unless it was pinned in the epoch after `tag`: it announced
    /// neither `tag` nor the epoch before it.
    pub proof fn lemma_reclaimable_unseen(&self, slot: int, tag: usize)
        requires
            self.wf(),
            self.live(slot),
            state_pinned(self.state(slot)),
            tag % 2 == 0,
            reclaimable(self.epoch(), tag),
            state_epoch(self.state(slot)) != next_epoch(tag),
        ensures
            state_epoch(self.state(slot)) != tag,
            next_epoch(state_epoch(self.state(slot))) != tag,
            distance(state_epoch(self.state(slot)), tag) > 2,
    {
        let announced = state_epoch(self.state(slot));
        assert(within_one(self.epoch(), announced));
        assert(self.epoch() % 2 == 0);
        assert(announced % 2 == 0);
    }

    /// Every participant that was pinned when a bag was tagged has left its
    /// pin before the bag is destroyed.
    ///
    /// `then` is the data when a bag was tagged, with the epoch of `then`;
    /// `now` is the data at a time when that bag is reclaimable. A
    /// participant that was pinned `then` and is pinned `now` has a new
    /// state: it has unpinned in between and pinned itself again in a later
    /// epoch.
    pub proof fn lemma_no_reader_left(then: &Global, now: &Global, slot: int)
        requires
            then.wf(),
            now.wf(),
            then.live(slot),
            state_pinned(then.state(slot)),
            now.live(slot),
            state_pinned(now.state(slot)),
            reclaimable(now.epoch(), then.epoch()),
        ensures
            now.state(slot) != then.state(slot),
            state_epoch(now.state(slot)) != state_epoch(then.state(slot)),
    {
        let tag = then.epoch();
        let before = state_epoch(then.state(slot));
        let after = state_epoch(now.state(slot));
        assert(within_one(tag, before));
        assert(within_one(now.epoch(), after));
        assert(tag % 2 == 0);
        assert(now.epoch() % 2 == 0);
    }

    /// `self` follows from `before` by a step of the protocol: both are well
    /// formed, and no participant that counts in both has gone from one pin
    /// into another. Every operation that changes the global data makes
    /// such a step.
    pub open spec fn follows(&self, before: &Global) -> bool {
        &&& before.wf()
        &&& self.wf()
        &&& forall|slot: int|
            before.live(slot) && self.live(slot) && state_pinned(before.state(slot))
                && state_pinned(#[trigger] self.state(slot)) ==> self.state(slot) == before.state(
                slot,
            )
    }

    /// A step that changes no participant follows.
    pub proof fn lemma_follows_same(&self, before: &Global)
        requires
            before.wf(),
            self.wf(),
            self.same_participants(before),
        ensures
            self.follows(before),
    {
        assert forall|slot: int|
            before.live(slot) && self.live(slot) && state_pinned(before.state(slot))
                && state_pinned(#[trigger] self.state(slot)) implies self.state(slot)
            == before.state(slot) by {
            before.lemma_live_in_slots(slot);
        }
    }

    /// A step that changes one participant follows if it pins it, unpins it,
    /// takes it in or out, or leaves its state as it is.
    pub proof fn lemma_follows_one(&self, before: &Global, entry: int)
        requires
            before.wf(),
            self.wf(),
            forall|slot: int|
                0 <= slot < before.slots() && slot != entry ==> self.state(slot) == before.state(
                    slot,
                ),
            !before.live(entry) || !self.live(entry) || !state_pinned(before.state(entry))
                || !state_pinned(self.state(entry)) || self.state(entry) == before.state(entry),
        ensures
            self.follows(before),
    {
        assert forall|slot: int|
            before.live(slot) && self.live(slot) && state_pinned(before.state(slot))
                && state_pinned(#[trigger] self.state(slot)) implies self.state(slot)
            == before.state(slot) by {
            before.lemma_live_in_slots(slot);
        }
    }

    /// A history of the global data: every state follows from the one
    /// before it by an operation of the protocol, in whatever order the
    /// participants take their turns.
    pub open spec fn history(states: Seq<Global>) -> bool {
        forall|k: int| 1 <= k < states.len() ==> (#[trigger] states[k]).follows(&states[k - 1])
    }

    /// A participant that counts and is pinned all the way from one state
    /// of a history to a later one keeps its state word.
    pub proof fn lemma_pin_lasts(states: Seq<Global>, from: int, to: int, slot: int)
        requires
            Self::history(states),
            0 <= from <= to < states.len(),
            forall|k: int|
                from <= k <= to ==> (#[trigger] states[k]).live(slot) && state_pinned(
                    states[k].state(slot),
                ),
        ensures
            states[to].state(slot) == states[from].state(slot),
        decreases to - from,
    {
        if from < to {
            Self::lemma_pin_lasts(states, from, to - 1, slot);
            assert(states[to].follows(&states[to - 1]));
            assert(states[to - 1].live(slot) && state_pinned(states[to - 1].state(slot)));
            assert(states[to].live(slot) && state_pinned(states[to].state(slot)));
        }
    }

    /// No deferred function runs under a participant that was pinned when
    /// it was deferred, in any history.
    ///
    /// Take any history, that is any interleaving of the operations of any
    /// participants. A function is deferred in the state `deferred`, its bag
    /// is tagged with the epoch of the state `tagged`, and the bag is
    /// destroyed in the state `destroyed`, when it is reclaimable. Then
    /// every participant that was pinned when the function was deferred has
    /// unpinned, or has left, at some state after that and no later than the
    /// one in which the bag is destroyed.
    pub proof fn lemma_safety(
        states: Seq<Global>,
        deferred: int,
        tagged: int,
        destroyed: int,
        slot: int,
    )
        requires
            Self::history(states),
            0 <= deferred <= tagged <= destroyed < states.len(),
            states[deferred].live(slot),
            state_pinned(states[deferred].state(slot)),
            reclaimable(states[destroyed].epoch(), states[tagged].epoch()),
        ensures
            exists|k: int|
                deferred < k <= destroyed && !((#[trigger] states[k]).live(slot) && state_pinned(
                    states[k].state(slot),
                )),
    {
        if forall|k: int|
            deferred < k <= destroyed ==> (#[trigger] states[k]).live(slot) && state_pinned(
                states[k].state(slot),
            ) {
            assert(tagged < destroyed) by {
                if tagged == destroyed {
                    assert(!reclaimable(states[tagged].epoch(), states[tagged].epoch()));
                }
            }
            assert(states[destroyed].follows(&states[destroyed - 1]));
            assert(states[tagged + 1].follows(&states[tagged]));
            assert forall|k: int| tagged <= k <= destroyed implies (#[trigger] states[k]).live(
                slot,
            ) && state_pinned(states[k].state(slot)) by {}
            Self::lemma_pin_lasts(states, tagged, destroyed, slot);
            Self::lemma_no_reader_left(&states[tagged], &states[destroyed], slot);
        }
    }

    /// If no participant that counts is pinned, the epoch may advance.
    pub proof fn lemma_unpinned_may_advance(&self)
        requires
            forall|slot: int| self.live(slot) ==> !state_pinned(#[trigger] self.state(slot)),
        ensures
            self.may_advance(),
            self.advanced() == next_epoch(self.epoch()),
    {
    }

    proof fn lemma_may_advance(&self)
        ensures
            self.may_advance() == may_advance(&self.registries, self.epoch@),
    {
        if self.may_advance() {
            assert forall|slot: int| !crate::epoch::holds_back(
                &self.registries,
                slot,
                self.epoch@,
            ) by {
                if is_live(&self.registries, slot) {
                    assert(self.live(slot));
                    let w = self.state(slot);
                }
            }
        }
        if may_advance(&self.registries, self.epoch@) {
            assert forall|slot: int|
                self.live(slot) && state_pinned(#[trigger] self.state(slot)) implies state_epoch(
                self.state(slot),
            ) == self.epoch() by {
                assert(!crate::epoch::holds_back(&self.registries, slot, self.epoch@));
            }
        }
    }

    /// Giving parked slots free changes no participant.
    proof fn lemma_reclaimed(before: &Global, after: &Global)
        requires
            before.wf(),
            after.registries.wf(),
            after.registries.order() == before.registries.order(),
            after.registries.slots() == before.registries.slots(),
            forall|s: int|
                0 <= s < before.registries.slots() ==> after.registries.node(s)
                    == before.registries.node(s),
            after.garbages == before.garbages,
            after.epoch == before.epoch,
            after.sealed <= after.registries.parked().len(),
        ensures
            after.wf(),
            after.same_participants(before),
            after.epoch() == before.epoch(),
            after.bags() == before.bags(),
    {
        before.registries.lemma_order_in_arena();
        assert forall|slot: int| is_live(&after.registries, slot) == is_live(
            &before.registries,
            slot,
        ) by {
            if before.registries.order().contains(slot) {
                assert(after.registries.node(slot) == before.registries.node(slot));
            }
        }
        assert forall|slot: int|
            is_live(&after.registries, slot) && state_pinned(
                #[trigger] after.registries.node(slot).payload()@,
            ) implies within_one(
            after.epoch@,
            state_epoch(after.registries.node(slot).payload()@),
        ) by {
            assert(is_live(&before.registries, slot));
            assert(after.registries.node(slot) == before.registries.node(slot));
        }
    }

    /// Creates the global data: no participant, no garbage, epoch 0.
    pub fn new() -> (global: Self)
        ensures
            global.wf(),
            global.epoch() == 0,
            global.bags() == Seq::<(usize, Bag)>::empty(),
            global.slots() == 0,
            forall|slot: int| !global.live(slot),
    {
        let global = Global {
            registries: List::new(),
            garbages: Queue::new(),
            epoch: Epoch::new(),
            sealed: 0,
            sealed_at: 0,
        };
        assert forall|slot: int| !global.live(slot) by {
            assert(!global.registries.order().contains(slot));
        }
        global
    }

    /// Tells whether another participant can be registered: the registry has
    /// room for one more entry.
    pub fn can_register(&self) -> (room: bool)
        ensures
            room == (self.slots() < max_nodes()),
    {
        self.registries.len() < usize::MAX / 2 - 1
    }

    /// Tells whether the slot `slot` holds a participant that counts.
    pub fn is_live(&self, slot: usize) -> (live: bool)
        requires
            self.wf(),
        ensures
            live == self.live(slot as int),
    {
        proof {
            self.registries.lemma_order_in_arena();
        }
        if slot < self.registries.len() {
            self.registries.is_linked(slot) && !self.registries.get(slot).is_marked()
        } else {
            proof {
                if self.registries.order().contains(slot as int) {
                    let k = choose|k: int|
                        0 <= k < self.registries.order().len() && self.registries.order()[k]
                            == slot;
                    assert(self.registries.order()[k] < self.registries.slots());
                }
            }
            false
        }
    }

    /// Returns the global epoch.
    pub fn get_epoch(&self) -> (epoch: usize)
        ensures
            epoch == self.epoch(),
    {
        self.epoch.load(Order::Relaxed)
    }

    /// Registers a participant: inserts an entry that is not pinned into the
    /// registry and returns its slot.
    pub fn register(&mut self) -> (slot: usize)
        requires
            old(self).wf(),
            old(self).slots() < max_nodes(),
        ensures
            final(self).follows(old(self)),
            final(self).wf(),
            slot < final(self).slots(),
            old(self).slots() <= final(self).slots() <= old(self).slots() + 1,
            !old(self).live(slot as int),
            final(self).live(slot as int),
            final(self).state(slot as int) == 0,
            forall|s: int| s != slot ==> final(self).live(s) == old(self).live(s),
            forall|s: int|
                0 <= s < old(self).slots() && s != slot ==> final(self).state(s) == old(self).state(
                    s,
                ),
            final(self).epoch() == old(self).epoch(),
            final(self).bags() == old(self).bags(),
    {
        // No pointer is read here, so the guard need not pin.
        let guard = crate::guard::unprotected();
        proof {
            self.registries.lemma_order_in_arena();
        }
        let slot = self.registries.insert(LocalEpoch::new(), &guard);
        proof {
            let before = old(self).registries;
            let after = self.registries;
            assert(after.order()[0] == slot);
            assert forall|s: int| s != slot implies is_live(&after, s) == is_live(&before, s) by {
                if before.order().contains(s) {
                    let k = choose|k: int| 0 <= k < before.order().len() && before.order()[k] == s;
                    assert(after.order()[k + 1] == s);
                    assert(after.node(s) == before.node(s));
                }
                if after.order().contains(s) {
                    let k = choose|k: int| 0 <= k < after.order().len() && after.order()[k] == s;
                    assert(before.order()[k - 1] == s);
                }
            }
            self.lemma_follows_one(old(self), slot as int);
        }
        slot
    }

    /// Pushes the bag onto the global queue, marked with the current epoch,
    /// and replaces the bag with a new empty bag.
    pub fn push_bag(&mut self, bag: &mut Bag, guard: &Guard)
        requires
            old(self).wf(),
        ensures
            final(self).follows(old(self)),
            final(self).wf(),
            final(bag)@ == Seq::<Garbage>::empty(),
            final(self).bags() == old(self).bags().push((old(self).epoch(), *old(bag))),
            final(self).epoch() == old(self).epoch(),
            final(self).same_participants(old(self)),
    {
        let epoch = self.epoch.load(Order::Relaxed);
        let mut full = Bag::new();
        core::mem::swap(bag, &mut full);
        self.garbages.push((epoch, full), guard);
        proof {
            self.lemma_follows_same(old(self));
        }
    }

    /// Collects several bags from the global queue and destroys their
    /// objects.
    ///
    /// First the epoch advances, if it may. Then the bags at the front of the
    /// queue that are more than one advancement old are destroyed, at most
    /// [`COLLECT_STEPS`] of them, up to the first that is not.
    ///
    /// The walk through the registry unlinks the entries of participants
    /// that have left. Under a pin their slots wait: they are sealed with
    /// the epoch after the walk, and a later `collect` gives them free for
    /// new participants once the epoch is more than one advancement past
    /// it.
    pub fn collect(&mut self, guard: &Guard)
        requires
            old(self).wf(),
        ensures
            final(self).follows(old(self)),
            final(self).wf(),
            final(self).epoch() == old(self).advanced(),
            final(self).bags() == old(self).bags().skip(
                ripe(old(self).bags(), final(self).epoch(), COLLECT_STEPS as nat) as int,
            ),
            destroyed(old(self).bags(), final(self).epoch()),
            final(self).same_participants(old(self)),
    {
        // The entries that were unlinked more than one advancement ago can
        // be used again: nobody that is still pinned has seen them linked.
        let now = self.epoch.load(Order::Relaxed);
        if self.sealed > 0 && is_reclaimable(now, self.sealed_at) {
            self.registries.reclaim_first(self.sealed);
            self.sealed = 0;
        }
        proof {
            Self::lemma_reclaimed(old(self), self);
            self.lemma_may_advance();
        }
        let ghost reclaimed = *self;
        let epoch = self.epoch.try_advance(&mut self.registries, guard);
        let ghost start = self.garbages@;
        let ghost registries = self.registries;
        proof {
            let before = reclaimed.registries;
            before.lemma_order_in_arena();
            registries.lemma_order_in_arena();
            assert forall|slot: int|
                is_live(&registries, slot) && state_pinned(
                    #[trigger] registries.node(slot).payload()@,
                ) implies within_one(epoch, state_epoch(registries.node(slot).payload()@)) by {
                assert(is_live(&before, slot));
                assert(before.order().contains(slot));
                assert(registries.node(slot).payload() == before.node(slot).payload());
                if may_advance(&before, old(self).epoch@) {
                    assert(!crate::epoch::holds_back(&before, slot, old(self).epoch@));
                }
            }
            assert(self.sealed <= registries.parked().len());
            assert(self.wf());
            assert(self.same_participants(&reclaimed));
            Local::lemma_same_participants_advance(old(self), &reclaimed);
        }
        // The entries that wait unsealed were unlinked by now.
        if self.sealed == 0 {
            let waiting = self.registries.parked_len();
            if waiting > 0 {
                self.sealed = waiting;
                self.sealed_at = epoch;
            }
        }
        let mut steps: usize = 0;
        let mut more = true;
        while more && steps < COLLECT_STEPS
            invariant
                self.wf(),
                self.epoch@ == epoch,
                self.registries == registries,
                steps <= COLLECT_STEPS,
                more ==> self.garbages@ == start.skip(steps as int) && steps <= start.len() && ripe(
                    start,
                    epoch,
                    COLLECT_STEPS as nat,
                ) == steps + ripe(self.garbages@, epoch, (COLLECT_STEPS - steps) as nat),
                !more ==> self.garbages@ == start.skip(
                    ripe(start, epoch, COLLECT_STEPS as nat) as int,
                ),
                more ==> forall|i: int| 0 <= i < steps ==> (#[trigger] start[i]).1.all_run(),
                !more ==> destroyed(start, epoch),
            decreases COLLECT_STEPS - steps + (if more { 1int } else { 0int }),
        {
            let ghost current = self.garbages@;
            // A pinned participant can witness at most one advancement, so a
            // bag within one epoch of the current one cannot be destroyed.
            let condition = |bag: &(usize, Bag)| -> (r: bool)
                ensures
                    r == reclaimable(epoch, bag.0),
                { is_reclaimable(epoch, bag.0) };
            match self.garbages.try_pop_if(condition, guard) {
                None => {
                    more = false;
                },
                Some(bag) => {
                    proof {
                        assert(current.skip(1) =~= start.skip(steps + 1));
                        assert(bag == start[steps as int]);
                    }
                    bag.1.run();
                    steps = steps + 1;
                },
            }
        }
        proof {
            self.lemma_follows_same(old(self));
        }
    }

    /// Destroys the global data: runs every piece of garbage of every bag
    /// that is still in the queue, whatever its epoch.
    ///
    /// Whoever destroys the data is the last to hold them, so no participant
    /// can still read what the garbage frees.
    pub fn destroy(self)
        requires
            self.wf(),
        ensures
            forall|i: int| 0 <= i < self.bags().len() ==> (#[trigger] self.bags()[i]).1.all_run(),
    {
        let guard = crate::guard::unprotected();
        let mut garbages = self.garbages;
        let ghost mut count = 0int;
        let mut more = true;
        while more
            invariant
                garbages.wf(),
                0 <= count <= self.garbages@.len(),
                more ==> garbages@ == self.garbages@.skip(count),
                !more ==> count == self.garbages@.len(),
                forall|i: int| 0 <= i < count ==> (#[trigger] self.garbages@[i]).1.all_run(),
            decreases self.garbages@.len() - count + (if more { 1int } else { 0int }),
        {
            let ghost current = garbages@;
            match garbages.try_pop(&guard) {
                None => {
                    more = false;
                },
                Some(bag) => {
                    proof {
                        assert(bag == self.garbages@[count]);
                        assert(current.skip(1) =~= self.garbages@.skip(count + 1));
                        count = count + 1;
                    }
                    bag.1.run();
                },
            }
        }
    }
}

/// The data of one participant.
///
/// A participant belongs to one thread: it is neither `Send` nor `Sync`.
pub struct Local {
    /// The slot of the participant's entry in the registry.
    entry: usize,
    /// The local bag of garbage.
    bag: Bag,
    /// The number of guards that keep the participant pinned.
    guard_count: usize,
    /// Total number of pinnings performed, wrapping around.
    pin_count: usize,
    /// Keeps the participant on its thread.
    _marker: PhantomData<Rc<()>>,
}

impl Local {
    /// The slot of the participant's entry in the registry.
    pub closed spec fn entry(&self) -> int {
        self.entry as int
    }

    /// The local bag.
    pub closed spec fn bag(&self) -> Bag {
        self.bag
    }

    /// The number of guards that keep the participant pinned.
    pub closed spec fn depth(&self) -> nat {
        self.guard_count as nat
    }

    /// The number of pinnings performed so far, wrapping around.
    pub closed spec fn pins(&self) -> usize {
        self.pin_count
    }

    /// The participant is registered in `global`, and its entry says that it
    /// is pinned exactly if a guard keeps it pinned.
    pub open spec fn wf(&self, global: &Global) -> bool {
        &&& 0 <= self.entry() < global.slots()
        &&& global.live(self.entry())
        &&& (self.depth() > 0) == state_pinned(global.state(self.entry()))
    }

    /// Registers a new participant in `global`.
    pub fn new(global: &mut Global) -> (local: Self)
        requires
            old(global).wf(),
            old(global).slots() < max_nodes(),
        ensures
            final(global).follows(old(global)),
            final(global).wf(),
            local.wf(final(global)),
            !old(global).live(local.entry()),
            local.depth() == 0,
            local.pins() == 0,
            local.bag()@ == Seq::<Garbage>::empty(),
            old(global).slots() <= final(global).slots() <= old(global).slots() + 1,
            final(global).state(local.entry()) == 0,
            forall|s: int| s != local.entry() ==> final(global).live(s) == old(global).live(s),
            forall|s: int|
                0 <= s < old(global).slots() && s != local.entry() ==> final(global).state(s)
                    == old(global).state(s),
            final(global).epoch() == old(global).epoch(),
            final(global).bags() == old(global).bags(),
    {
        let entry = global.register();
        Local {
            entry: entry,
            bag: Bag::new(),
            guard_count: 0,
            pin_count: 0,
            _marker: PhantomData,
        }
    }

    /// Returns `true` if the participant is pinned.
    pub fn is_pinned(&self) -> (pinned: bool)
        ensures
            pinned == (self.depth() > 0),
    {
        self.guard_count > 0
    }

    /// Tells whether `guard` keeps this participant pinned.
    pub fn made(&self, guard: &Guard) -> (r: bool)
        ensures
            r == (guard.owner() == Some(self.entry())),
    {
        guard.pins(self.entry)
    }

    /// Returns the number of guards that keep the participant pinned.
    pub fn guards(&self) -> (count: usize)
        ensures
            count == self.depth(),
    {
        self.guard_count
    }

    /// Tells whether the participant is registered in `global` and its entry
    /// agrees with its guards.
    pub fn is_registered(&self, global: &Global) -> (registered: bool)
        requires
            global.wf(),
        ensures
            registered == self.wf(global),
    {
        if self.entry < global.registries.len() && global.is_live(self.entry) {
            let (pinned, _) = global.registries.get(self.entry).get().get_state();
            pinned == (self.guard_count > 0)
        } else {
            false
        }
    }

    /// Pins the participant.
    ///
    /// A nested pin only counts the guard. The first pin counts the pinning
    /// and announces the global epoch in the participant's entry; if the
    /// number of pinnings, this one included, is a multiple of
    /// [`PINS_BETWEEN_COLLECT`], it then collects some global garbage.
    pub fn pin(&mut self, global: &mut Global) -> (guard: Guard)
        requires
            old(global).wf(),
            old(self).wf(old(global)),
            old(self).depth() < usize::MAX,
        ensures
            final(global).follows(old(global)),
            final(global).wf(),
            final(self).wf(final(global)),
            guard.owner() == Some(old(self).entry()),
            final(self).entry() == old(self).entry(),
            final(self).bag() == old(self).bag(),
            final(self).depth() == old(self).depth() + 1,
            final(global).same_others(old(global), old(self).entry()),
            old(self).depth() > 0 ==> ({
                &&& final(self).pins() == old(self).pins()
                &&& final(global).state(old(self).entry()) == old(global).state(old(self).entry())
                &&& final(global).epoch() == old(global).epoch()
                &&& final(global).bags() == old(global).bags()
            }),
            old(self).depth() == 0 ==> ({
                &&& final(self).pins() == wrap_add(old(self).pins(), 1)
                &&& final(global).state(old(self).entry()) == old(global).epoch() | 1
                &&& state_epoch(final(global).state(old(self).entry())) == old(global).epoch()
            }),
            old(self).depth() == 0 && wrap_add(old(self).pins(), 1) % PINS_BETWEEN_COLLECT != 0
                ==> ({
                &&& final(global).epoch() == old(global).epoch()
                &&& final(global).bags() == old(global).bags()
            }),
            old(self).depth() == 0 && wrap_add(old(self).pins(), 1) % PINS_BETWEEN_COLLECT == 0
                ==> ({
                &&& final(global).epoch() == old(global).advanced()
                &&& final(global).bags() == swept(old(global).bags(), old(global).advanced())
                &&& destroyed(old(global).bags(), old(global).advanced())
            }),
    {
        let guard = Guard::pinned(self.entry);
        let guard_count = self.guard_count;
        self.guard_count = guard_count + 1;
        if guard_count == 0 {
            // Count the pinning.
            let count = self.pin_count.wrapping_add(1);
            self.pin_count = count;
            // Announce the epoch.
            let epoch = global.epoch.load(Order::Relaxed);
            self.announce(global, epoch);
            // If the counter progressed enough, try advancing the epoch and
            // collecting garbage.
            if count % PINS_BETWEEN_COLLECT == 0 {
                let ghost announced = *global;
                proof {
                    Self::lemma_unpinned_never_holds_back(
                        old(global),
                        &announced,
                        self.entry as int,
                    );
                }
                global.collect(&guard);
            }
        }
        proof {
            global.lemma_follows_one(old(global), self.entry as int);
        }
        guard
    }

    /// Gives one guard back. When the last guard is given back, the
    /// participant's entry says that it is not pinned any more.
    pub fn unpin(&mut self, global: &mut Global)
        requires
            old(global).wf(),
            0 <= old(self).entry() < old(global).slots(),
            old(self).depth() > 0,
        ensures
            final(global).follows(old(global)),
            final(global).wf(),
            final(self).entry() == old(self).entry(),
            final(self).bag() == old(self).bag(),
            final(self).pins() == old(self).pins(),
            final(self).depth() == old(self).depth() - 1,
            final(global).same_others(old(global), old(self).entry()),
            final(global).live(old(self).entry()) == old(global).live(old(self).entry()),
            final(global).epoch() == old(global).epoch(),
            final(global).bags() == old(global).bags(),
            old(self).depth() == 1 ==> final(global).state(old(self).entry()) == 0,
            old(self).depth() > 1 ==> final(global).state(old(self).entry()) == old(global).state(
                old(self).entry(),
            ),
            old(self).wf(old(global)) ==> final(self).wf(final(global)),
    {
        let guard_count = self.guard_count;
        self.guard_count = guard_count - 1;
        if guard_count == 1 {
            self.retract(global);
        }
        proof {
            global.lemma_follows_one(old(global), self.entry as int);
        }
    }

    /// Stores a piece of garbage in the local bag. If the bag is full, it is
    /// first pushed onto the global queue, marked with the current epoch, and
    /// a new bag takes its place.
    pub fn defer(&mut self, global: &mut Global, garbage: Garbage, guard: &Guard)
        requires
            old(global).wf(),
        ensures
            final(global).follows(old(global)),
            final(global).wf(),
            final(self).entry() == old(self).entry(),
            final(self).depth() == old(self).depth(),
            final(self).pins() == old(self).pins(),
            final(global).same_participants(old(global)),
            final(global).epoch() == old(global).epoch(),
            old(self).bag()@.len() < MAX_OBJECTS ==> ({
                &&& final(self).bag()@ == old(self).bag()@.push(garbage)
                &&& final(global).bags() == old(global).bags()
            }),
            old(self).bag()@.len() >= MAX_OBJECTS ==> ({
                &&& final(self).bag()@ == Seq::<Garbage>::empty().push(garbage)
                &&& final(global).bags() == old(global).bags().push(
                    (old(global).epoch(), old(self).bag()),
                )
            }),
    {
        let mut piece = garbage;
        let mut handed_over = false;
        loop
            invariant
                piece == garbage,
                old(global).wf(),
                global.wf(),
                self.entry == old(self).entry,
                self.guard_count == old(self).guard_count,
                self.pin_count == old(self).pin_count,
                global.same_participants(old(global)),
                global.epoch() == old(global).epoch(),
                !handed_over ==> self.bag == old(self).bag && global.bags() == old(global).bags(),
                handed_over ==> old(self).bag@.len() >= MAX_OBJECTS && self.bag@
                    == Seq::<Garbage>::empty() && global.bags() == old(global).bags().push(
                    (old(global).epoch(), old(self).bag),
                ),
            decreases (if handed_over { 0int } else { 1int }),
        {
            match self.bag.try_push(piece) {
                Ok(_) => {
                    proof {
                        global.lemma_follows_same(old(global));
                    }
                    return ;
                },
                Err(g) => {
                    global.push_bag(&mut self.bag, guard);
                    piece = g;
                    handed_over = true;
                },
            }
        }
    }

    /// Pushes the local bag onto the global queue if it is not empty, and
    /// collects some global garbage.
    pub fn flush(&mut self, global: &mut Global, guard: &Guard)
        requires
            old(global).wf(),
        ensures
            final(global).follows(old(global)),
            final(global).wf(),
            final(self).entry() == old(self).entry(),
            final(self).depth() == old(self).depth(),
            final(self).pins() == old(self).pins(),
            final(self).bag()@ == Seq::<Garbage>::empty(),
            final(global).same_participants(old(global)),
            final(global).epoch() == old(global).advanced(),
            old(self).bag()@.len() == 0 ==> ({
                &&& final(global).bags() == swept(old(global).bags(), old(global).advanced())
                &&& destroyed(old(global).bags(), old(global).advanced())
            }),
            old(self).bag()@.len() > 0 ==> ({
                &&& final(global).bags() == swept(
                    old(global).bags().push((old(global).epoch(), old(self).bag())),
                    old(global).advanced(),
                )
                &&& destroyed(
                    old(global).bags().push((old(global).epoch(), old(self).bag())),
                    old(global).advanced(),
                )
            }),
    {
        if !self.bag.is_empty() {
            global.push_bag(&mut self.bag, guard);
        }
        proof {
            Self::lemma_same_participants_advance(old(global), global);
        }
        global.collect(guard);
        proof {
            global.lemma_follows_same(old(global));
        }
    }

    /// Takes the participant out of `global`.
    ///
    /// The participant pins itself, collects some global garbage, marks its
    /// entry as deleted, pushes its bag onto the global queue, marked with
    /// the epoch, and unpins. Its own pin collects first if the number of
    /// pinnings, that one included, is a multiple of
    /// [`PINS_BETWEEN_COLLECT`]; the epoch advances at most once all the
    /// same, because from then on the participant itself holds it back.
    pub fn unregister(self, global: &mut Global)
        requires
            old(global).wf(),
            self.wf(old(global)),
            self.depth() == 0,
        ensures
            final(global).follows(old(global)),
            final(global).wf(),
            !final(global).live(self.entry()),
            final(global).same_others(old(global), self.entry()),
            final(global).state(self.entry()) == 0,
            final(global).epoch() == old(global).advanced(),
            destroyed(old(global).bags(), old(global).advanced()),
            wrap_add(self.pins(), 1) % PINS_BETWEEN_COLLECT != 0 ==> final(global).bags() == swept(
                old(global).bags(),
                old(global).advanced(),
            ).push((old(global).advanced(), self.bag())),
            wrap_add(self.pins(), 1) % PINS_BETWEEN_COLLECT == 0 ==> ({
                &&& final(global).bags() == swept(
                    swept(old(global).bags(), old(global).advanced()),
                    old(global).advanced(),
                ).push((old(global).advanced(), self.bag()))
                &&& destroyed(
                    swept(old(global).bags(), old(global).advanced()),
                    old(global).advanced(),
                )
            }),
    {
        let mut this = self;
        let guard = this.pin(global);
        let ghost pinned = *global;
        proof {
            Self::lemma_pinned_holds_back(old(global), &pinned, this.entry as int);
        }
        // Spare some cycles on garbage collection.
        global.collect(&guard);
        let ghost collected = *global;
        // Mark the entry as deleted.
        global.registries.delete(this.entry, &guard);
        proof {
            Self::lemma_entry_deleted(&collected, global, this.entry as int);
        }
        // Push the local bag onto the global queue.
        global.push_bag(&mut this.bag, &guard);
        this.unpin(global);
        proof {
            global.lemma_follows_one(old(global), this.entry as int);
        }
    }

    /// The data with the same participants in the same states and the same
    /// epoch advance alike.
    proof fn lemma_same_participants_advance(before: &Global, after: &Global)
        requires
            after.same_participants(before),
            after.epoch() == before.epoch(),
            before.wf(),
            after.wf(),
        ensures
            after.may_advance() == before.may_advance(),
            after.advanced() == before.advanced(),
    {
        if before.may_advance() {
            assert forall|slot: int|
                after.live(slot) && state_pinned(#[trigger] after.state(slot)) implies state_epoch(
                after.state(slot),
            ) == after.epoch() by {
                after.lemma_live_in_slots(slot);
                assert(before.live(slot));
            }
        }
        if after.may_advance() {
            assert forall|slot: int|
                before.live(slot)
                    && state_pinned(#[trigger] before.state(slot)) implies state_epoch(
                before.state(slot),
            ) == before.epoch() by {
                before.lemma_live_in_slots(slot);
                assert(after.live(slot));
                assert(state_pinned(after.state(slot)));
            }
        }
    }

    /// After a participant has pinned itself, and the epoch has advanced if
    /// it might, the epoch may advance no further: either somebody held it
    /// back and still does, or the participant itself now does.
    proof fn lemma_pinned_holds_back(before: &Global, after: &Global, entry: int)
        requires
            before.wf(),
            after.wf(),
            after.same_others(before, entry),
            before.live(entry),
            after.live(entry),
            !state_pinned(before.state(entry)),
            state_pinned(after.state(entry)),
            state_epoch(after.state(entry)) == before.epoch(),
            after.epoch() == before.epoch() || after.epoch() == before.advanced(),
        ensures
            after.epoch() == before.advanced() ==> after.advanced() == after.epoch(),
            after.epoch() == before.epoch() ==> after.advanced() == before.advanced(),
    {
        if after.epoch() == before.epoch() {
            Self::lemma_unpinned_never_holds_back(before, after, entry);
        }
        if after.epoch() == before.advanced() {
            if before.may_advance() {
                // The participant itself is pinned in the epoch before.
                let w = after.state(entry);
                assert(state_epoch(w) != after.epoch());
                assert(!after.may_advance());
            } else {
                Self::lemma_unpinned_never_holds_back(before, after, entry);
            }
        }
    }

    /// Marking an entry as deleted takes its participant out and changes
    /// nothing else.
    proof fn lemma_entry_deleted(before: &Global, after: &Global, entry: int)
        requires
            before.wf(),
            after.registries.wf(),
            0 <= entry < before.registries.slots(),
            after.registries.order() == before.registries.order(),
            after.registries.slots() == before.registries.slots(),
            after.registries.node(entry).is_deleted(),
            after.registries.node(entry).payload() == before.registries.node(entry).payload(),
            forall|s: int|
                0 <= s < before.registries.slots() && s != entry ==> after.registries.node(s)
                    == before.registries.node(s),
            after.registries.parked() == before.registries.parked(),
            after.sealed == before.sealed,
            after.garbages == before.garbages,
            after.epoch == before.epoch,
        ensures
            after.wf(),
            after.same_others(before, entry),
            !after.live(entry),
            after.state(entry) == before.state(entry),
            after.epoch() == before.epoch(),
            after.bags() == before.bags(),
    {
        before.registries.lemma_order_in_arena();
        assert forall|s: int| s != entry implies is_live(&after.registries, s) == is_live(
            &before.registries,
            s,
        ) by {
            if before.registries.order().contains(s) {
                assert(after.registries.node(s) == before.registries.node(s));
            }
        }
        assert forall|slot: int|
            is_live(&after.registries, slot) && state_pinned(
                #[trigger] after.registries.node(slot).payload()@,
            ) implies within_one(
            after.epoch@,
            state_epoch(after.registries.node(slot).payload()@),
        ) by {
            assert(slot != entry);
            assert(is_live(&before.registries, slot));
            assert(after.registries.node(slot) == before.registries.node(slot));
        }
    }

    /// Writes the state `pinned in epoch` into the participant's entry.
    fn announce(&self, global: &mut Global, epoch: usize)
        requires
            old(global).wf(),
            0 <= self.entry() < old(global).slots(),
            epoch == old(global).epoch(),
        ensures
            final(global).wf(),
            final(global).state(self.entry()) == epoch | 1,
            state_pinned(final(global).state(self.entry())),
            state_epoch(final(global).state(self.entry())) == epoch,
            final(global).same_others(old(global), self.entry()),
            final(global).live(self.entry()) == old(global).live(self.entry()),
            final(global).epoch() == old(global).epoch(),
            final(global).bags() == old(global).bags(),
    {
        let local_epoch = global.registries.get_mut(self.entry);
        local_epoch.set_pinned(epoch);
        proof {
            Self::lemma_entry_changed(old(global), global, self.entry as int);
        }
    }

    /// Writes the state `not pinned` into the participant's entry.
    fn retract(&self, global: &mut Global)
        requires
            old(global).wf(),
            0 <= self.entry() < old(global).slots(),
        ensures
            final(global).wf(),
            final(global).state(self.entry()) == 0,
            final(global).same_others(old(global), self.entry()),
            final(global).live(self.entry()) == old(global).live(self.entry()),
            final(global).epoch() == old(global).epoch(),
            final(global).bags() == old(global).bags(),
    {
        let local_epoch = global.registries.get_mut(self.entry);
        local_epoch.set_unpinned();
        proof {
            Self::lemma_entry_changed(old(global), global, self.entry as int);
        }
    }

    /// A change of the data of one entry changes nothing else, and keeps the
    /// global data well formed if the new state is within one advancement.
    proof fn lemma_entry_changed(before: &Global, after: &Global, entry: int)
        requires
            before.wf(),
            after.registries.wf(),
            0 <= entry < before.registries.slots(),
            after.registries.order() == before.registries.order(),
            after.registries.slots() == before.registries.slots(),
            after.registries.node(entry).link() == before.registries.node(entry).link(),
            forall|s: int|
                0 <= s < before.registries.slots() && s != entry ==> after.registries.node(s)
                    == before.registries.node(s),
            after.registries.parked() == before.registries.parked(),
            after.sealed == before.sealed,
            after.garbages == before.garbages,
            after.epoch == before.epoch,
            state_pinned(after.registries.node(entry).payload()@) ==> state_epoch(
                after.registries.node(entry).payload()@,
            ) == before.epoch@,
        ensures
            after.wf(),
            after.same_others(before, entry),
            after.live(entry) == before.live(entry),
    {
        before.registries.lemma_order_in_arena();
        assert forall|s: int| is_live(&after.registries, s) == is_live(&before.registries, s) by {
            if before.registries.order().contains(s) {
                if s != entry {
                    assert(after.registries.node(s) == before.registries.node(s));
                }
            }
        }
        assert forall|slot: int|
            is_live(&after.registries, slot) && state_pinned(
                #[trigger] after.registries.node(slot).payload()@,
            ) implies within_one(
            after.epoch@,
            state_epoch(after.registries.node(slot).payload()@),
        ) by {
            if slot != entry {
                assert(is_live(&before.registries, slot));
                assert(after.registries.node(slot) == before.registries.node(slot));
            }
        }
    }

    /// A participant that is not pinned holds nothing back: when it pins in
    /// the current epoch, the epoch may advance exactly if it might before.
    proof fn lemma_unpinned_never_holds_back(before: &Global, after: &Global, entry: int)
        requires
            before.wf(),
            after.wf(),
            after.same_others(before, entry),
            after.live(entry) == before.live(entry),
            after.epoch() == before.epoch(),
            !state_pinned(before.state(entry)),
            state_pinned(after.state(entry)) ==> state_epoch(after.state(entry)) == after.epoch(),
        ensures
            after.may_advance() == before.may_advance(),
            after.advanced() == before.advanced(),
    {
        if before.may_advance() {
            assert forall|slot: int|
                after.live(slot) && state_pinned(#[trigger] after.state(slot)) implies state_epoch(
                after.state(slot),
            ) == after.epoch() by {
                if slot != entry {
                    assert(before.live(slot));
                    assert(after.state(slot) == before.state(slot)) by {
                        after.lemma_live_in_slots(slot);
                    }
                }
            }
        }
        if after.may_advance() {
            assert forall|slot: int|
                before.live(slot)
                    && state_pinned(#[trigger] before.state(slot)) implies state_epoch(
                before.state(slot),
            ) == before.epoch() by {
                if slot != entry {
                    assert(after.live(slot));
                    assert(after.state(slot) == before.state(slot)) by {
                        after.lemma_live_in_slots(slot);
                    }
                    assert(state_pinned(after.state(slot)));
                }
            }
        }
    }
}

} // verus!
