//! The global epoch.
//!
//! The epoch is a point on a circle of `usize` values. Its last bit is unused
//! and always zero, so it moves in steps of two and wraps around. A pinned
//! participant may advance the global epoch only if all currently pinned
//! participants have been pinned in the current epoch.
//!
//! If an object became garbage in some epoch, then after two advancements no
//! participant holds a reference to it. That is the crux of safe memory
//! reclamation.
use vstd::prelude::*;
use crossbeam_utils::CachePadded;
use crate::atomic::Order;
use crate::padded::padded_get;
use crate::padded::padded_new;
use crate::padded::padded_set;
use crate::padded::padded_word;
use crate::guard::Guard;
use crate::sync::list::IterError;
use crate::sync::list::List;

verus! {

/// `a - b` on the circle.
pub open spec fn wrap_sub(a: usize, b: usize) -> usize {
    if a >= b {
        (a - b) as usize
    } else {
        (a - b + usize::MAX + 1) as usize
    }
}

/// `a + b` on the circle.
pub open spec fn wrap_add(a: usize, b: usize) -> usize {
    if a + b > usize::MAX {
        (a + b - usize::MAX - 1) as usize
    } else {
        (a + b) as usize
    }
}

/// The distance of two epochs on the circle: the shorter of the two ways
/// round.
pub open spec fn distance(a: usize, b: usize) -> usize {
    if wrap_sub(a, b) <= wrap_sub(b, a) {
        wrap_sub(a, b)
    } else {
        wrap_sub(b, a)
    }
}

/// A bag that was tagged with the epoch `tag` may be destroyed when the global
/// epoch is `now`: the two are more than one advancement apart.
pub open spec fn reclaimable(now: usize, tag: usize) -> bool {
    distance(now, tag) > 2
}

/// The epoch that follows `epoch`.
pub open spec fn next_epoch(epoch: usize) -> usize {
    wrap_add(epoch, 2)
}

/// Returns the distance of two epochs on the circle.
pub fn epoch_distance(a: usize, b: usize) -> (d: usize)
    ensures
        d == distance(a, b),
{
    let diff = a.wrapping_sub(b);
    let back = 0usize.wrapping_sub(diff);
    if diff <= back {
        diff
    } else {
        back
    }
}

/// Tells whether a bag tagged `tag` may be destroyed at the global epoch
/// `now`.
pub fn is_reclaimable(now: usize, tag: usize) -> (r: bool)
    ensures
        r == reclaimable(now, tag),
{
    epoch_distance(now, tag) > 2
}

/// The distance is symmetric, and zero exactly between equal epochs.
pub proof fn lemma_distance_symmetric(a: usize, b: usize)
    ensures
        distance(a, b) == distance(b, a),
        distance(a, b) == 0 <==> a == b,
{
}

/// The epoch advances by even steps: the next epoch is two further on the
/// circle, and it is even if the epoch is.
pub proof fn lemma_next_epoch_even(epoch: usize)
    ensures
        wrap_sub(next_epoch(epoch), epoch) == 2,
        next_epoch(epoch) != epoch,
        epoch % 2 == 0 ==> next_epoch(epoch) % 2 == 0,
{
}

/// A bag is not reclaimable in the epoch that it was tagged with, nor in the
/// next; after two advancements it is.
pub proof fn lemma_two_advancements(tag: usize)
    ensures
        !reclaimable(tag, tag),
        !reclaimable(next_epoch(tag), tag),
        reclaimable(next_epoch(next_epoch(tag)), tag),
{
}

/// The global epoch: one word on a cache line of its own.
pub struct Epoch {
    epoch: CachePadded<usize>,
}

impl View for Epoch {
    type V = usize;

    closed spec fn view(&self) -> usize {
        padded_word(self.epoch)
    }
}

impl Epoch {
    /// Returns the epoch cell at epoch 0.
    pub fn new() -> (epoch: Self)
        ensures
            epoch@ == 0,
    {
        Epoch { epoch: padded_new(0) }
    }

    /// Reads the global epoch.
    pub fn load(&self, _ord: Order) -> (epoch: usize)
        ensures
            epoch == self@,
    {
        padded_get(&self.epoch)
    }

    /// Writes the global epoch.
    pub fn store(&mut self, epoch: usize, _ord: Order)
        ensures
            final(self)@ == epoch,
    {
        padded_set(&mut self.epoch, epoch);
    }
}

/// Whether a state word says that its participant is pinned: the low bit.
pub open spec fn state_pinned(state: usize) -> bool {
    state % 2 == 1
}

/// The epoch that a state word announces: the word without its low bit.
pub open spec fn state_epoch(state: usize) -> usize {
    (state - state % 2) as usize
}

/// The low bit of a word is its remainder by two, and the bitwise forms of
/// clearing and setting it are the arithmetic ones.
pub proof fn lemma_low_bit(word: usize)
    ensures
        word & 1 == word % 2,
        word & !1usize == word - word % 2,
        word | 1 == word - word % 2 + 1,
{
    assert(word & 1 == word % 2) by (bit_vector);
    assert(word & !1usize == word - word % 2) by (bit_vector);
    assert(word | 1 == word - word % 2 + 1) by (bit_vector);
}

/// The state word of a participant, in its entry of the registry.
///
/// The low bit is set if the participant is pinned. The rest of the bits
/// hold the epoch that it announced when it was pinned, which is even; an
/// unpinned participant has the word 0. Its view is the word.
pub struct LocalEpoch {
    state: CachePadded<usize>,
}

impl View for LocalEpoch {
    type V = usize;

    closed spec fn view(&self) -> usize {
        padded_word(self.state)
    }
}

impl LocalEpoch {
    /// Whether the participant is pinned.
    pub open spec fn pinned(&self) -> bool {
        state_pinned(self@)
    }

    /// The epoch that the participant announced.
    pub open spec fn announced(&self) -> usize {
        state_epoch(self@)
    }

    /// Returns the state of a participant that is not pinned.
    pub fn new() -> (local_epoch: Self)
        ensures
            local_epoch@ == 0,
            !local_epoch.pinned(),
    {
        LocalEpoch { state: padded_new(0) }
    }

    /// Returns whether the participant is pinned, and the epoch that it
    /// announced.
    pub fn get_state(&self) -> (state: (bool, usize))
        ensures
            state.0 == self.pinned(),
            state.1 == self.announced(),
    {
        let state = padded_get(&self.state);
        proof {
            lemma_low_bit(state);
        }
        ((state & 1) == 1, state & !1)
    }

    /// Marks the participant as pinned in the epoch `epoch`.
    pub fn set_pinned(&mut self, epoch: usize)
        ensures
            final(self)@ == epoch | 1,
            final(self).pinned(),
            final(self).announced() == state_epoch(epoch),
            epoch % 2 == 0 ==> final(self).announced() == epoch,
    {
        let state = epoch | 1;
        proof {
            lemma_low_bit(epoch);
        }
        padded_set(&mut self.state, state);
    }

    /// Marks the participant as unpinned. The epoch need not be kept, so the
    /// word becomes 0.
    pub fn set_unpinned(&mut self)
        ensures
            final(self)@ == 0,
            !final(self).pinned(),
    {
        padded_set(&mut self.state, 0);
    }
}

/// Whether the entry in the slot `slot` is a participant that counts: it is
/// linked and not marked as deleted.
pub open spec fn is_live(registries: &List<LocalEpoch>, slot: int) -> bool {
    registries.order().contains(slot) && !registries.node(slot).is_deleted()
}

/// Whether the participant in the slot `slot` holds the epoch `epoch` back:
/// it is pinned in another epoch.
pub open spec fn holds_back(registries: &List<LocalEpoch>, slot: int, epoch: usize) -> bool {
    is_live(registries, slot) && registries.node(slot).payload().pinned() && registries.node(
        slot,
    ).payload().announced() != epoch
}

/// Whether the epoch may advance from `epoch`: every pinned participant has
/// been pinned in `epoch`.
pub open spec fn may_advance(registries: &List<LocalEpoch>, epoch: usize) -> bool {
    forall|slot: int| !holds_back(registries, slot, epoch)
}

/// How many entries of the registry a traversal for the epoch `epoch` walks
/// from position `from` on: up to and including the first participant that
/// holds the epoch back, or to the end.
pub open spec fn walked(registries: &List<LocalEpoch>, epoch: usize, from: int) -> int
    decreases registries.order().len() - from,
{
    if from < 0 || from >= registries.order().len() {
        registries.order().len() as int
    } else if holds_back(registries, registries.order()[from], epoch) {
        from + 1
    } else {
        walked(registries, epoch, from + 1)
    }
}

/// A traversal walks past a run of entries that do not hold the epoch back.
pub proof fn lemma_walked_run(registries: &List<LocalEpoch>, epoch: usize, from: int, to: int)
    requires
        0 <= from <= to <= registries.order().len(),
        forall|k: int|
            from <= k < to ==> !holds_back(registries, #[trigger] registries.order()[k], epoch),
    ensures
        walked(registries, epoch, from) == walked(registries, epoch, to),
        to <= walked(registries, epoch, to) <= registries.order().len(),
    decreases to - from,
{
    if from < to {
        lemma_walked_run(registries, epoch, from + 1, to);
    } else {
        lemma_walked_bounds(registries, epoch, to);
    }
}

proof fn lemma_walked_bounds(registries: &List<LocalEpoch>, epoch: usize, from: int)
    requires
        0 <= from <= registries.order().len(),
    ensures
        from <= walked(registries, epoch, from) <= registries.order().len(),
    decreases registries.order().len() - from,
{
    if from < registries.order().len() && !holds_back(
        registries,
        registries.order()[from],
        epoch,
    ) {
        lemma_walked_bounds(registries, epoch, from + 1);
    }
}

impl Epoch {
    /// Attempts to advance the global epoch.
    ///
    /// The global epoch advances, by two, if and only if every participant
    /// that is pinned has been pinned in the current epoch. Returns the
    /// global epoch after the attempt.
    ///
    /// The registry is walked from its head to the first participant that
    /// holds the epoch back. The entries on the way that are marked as
    /// deleted are unlinked; the participants that count, and their states,
    /// stay what they were.
    #[verifier::rlimit(80)]
    pub fn try_advance(&mut self, registries: &mut List<LocalEpoch>, guard: &Guard) -> (epoch: usize)
        requires
            old(registries).wf(),
        ensures
            final(registries).wf(),
            final(registries).slots() == old(registries).slots(),
            forall|s: int|
                0 <= s < old(registries).slots() ==> (#[trigger] final(registries).node(
                    s,
                )).payload() == old(registries).node(s).payload() && final(registries).node(
                    s,
                ).is_deleted() == old(registries).node(s).is_deleted(),
            forall|s: int| is_live(final(registries), s) <==> is_live(old(registries), s),
            final(registries).order() == old(registries).kept(
                walked(old(registries), old(self)@, 0),
            ) + old(registries).order().subrange(
                walked(old(registries), old(self)@, 0),
                old(registries).order().len() as int,
            ),
            guard.protected() ==> final(registries).reusable() == old(registries).reusable()
                && final(registries).parked() == old(registries).parked()
                    + old(registries).dropped(walked(old(registries), old(self)@, 0)),
            !guard.protected() ==> final(registries).parked() == old(registries).parked()
                && final(registries).reusable() == old(registries).reusable()
                    + old(registries).dropped(walked(old(registries), old(self)@, 0)),
            may_advance(old(registries), old(self)@) ==> epoch == next_epoch(old(self)@),
            !may_advance(old(registries), old(self)@) ==> epoch == old(self)@,
            final(self)@ == epoch,
    {
        let epoch = self.load(Order::Relaxed);
        let ghost ord = registries.order();
        let ghost mut i = 0int;
        proof {
            old(registries).lemma_order_in_arena();
            assert(registries.order() =~= registries.kept(0) + ord.subrange(0, ord.len() as int));
            assert(registries.parked() =~= registries.parked() + registries.dropped(0));
            assert(registries.reusable() =~= registries.reusable() + registries.dropped(0));
        }
        // Traverse the linked list of participant registries.
        let mut iter = registries.iter(guard);
        let mut done = false;
        while !done
            invariant
                self@ == old(self)@,
                epoch == self@,
                old(registries).wf(),
                ord == old(registries).order(),
                iter.wf(registries),
                registries.slots() == old(registries).slots(),
                forall|s: int|
                    0 <= s < old(registries).slots() ==> (#[trigger] registries.node(s)).payload()
                        == old(registries).node(s).payload() && registries.node(s).is_deleted()
                        == old(registries).node(s).is_deleted(),
                forall|s: int| registries.order().contains(s) ==> ord.contains(s),
                forall|s: int|
                    ord.contains(s) && !old(registries).node(s).is_deleted()
                        ==> registries.order().contains(s),
                forall|k: int|
                    0 <= k < iter.position() ==> !holds_back(
                        old(registries),
                        #[trigger] registries.order()[k],
                        epoch,
                    ),
                0 <= iter.position() <= registries.order().len(),
                0 <= i <= ord.len(),
                registries.order() == old(registries).kept(i) + ord.subrange(i, ord.len() as int),
                iter.position() == old(registries).kept(i).len(),
                guard.protected() ==> registries.reusable() == old(registries).reusable()
                    && registries.parked() == old(registries).parked() + old(registries).dropped(i),
                !guard.protected() ==> registries.parked() == old(registries).parked()
                    && registries.reusable() == old(registries).reusable()
                        + old(registries).dropped(i),
                walked(old(registries), epoch, 0) == walked(old(registries), epoch, i),
                done ==> i == ord.len(),
            decreases ord.len() - i + (if done { 0int } else { 1int }),
        {
            let ghost before = *registries;
            let ghost pos = iter.position();
            let ghost jo = old(registries).first_unmarked(i);
            proof {
                iter.lemma_in_list(registries);
                before.lemma_first_unmarked(pos);
                before.lemma_order_in_arena();
                old(registries).lemma_order_in_arena();
                old(registries).lemma_first_unmarked(i);
                before.lemma_step(pos, old(registries), i);
                lemma_walked_run(old(registries), epoch, i, jo);
            }
            let step = iter.next(registries, guard);
            proof {
                iter.lemma_in_list(registries);
            }
            match step {
                None => {
                    done = true;
                    proof {
                        i = jo;
                    }
                },
                Some(Err(IterError::LostRace)) => {
                    // The job is left to the iterator that won the race.
                    return epoch;
                },
                Some(Ok(slot)) => {
                    proof {
                        assert(registries.order()[pos] == ord[jo]);
                        assert(ord.contains(slot as int));
                        assert forall|k: int| 0 <= k < pos implies registries.order()[k]
                            == before.order()[k] by {}
                    }
                    let (pinned, local_epoch) = registries.get(slot).get().get_state();
                    // A participant that was pinned in another epoch holds
                    // the global epoch back.
                    if pinned && local_epoch != epoch {
                        proof {
                            assert(holds_back(old(registries), slot as int, epoch));
                            assert(walked(old(registries), epoch, jo) == jo + 1);
                            registries.lemma_order_in_arena();
                            assert forall|s: int| is_live(registries, s) <==> is_live(
                                old(registries),
                                s,
                            ) by {
                                if registries.order().contains(s) {
                                    assert(ord.contains(s));
                                }
                            }
                        }
                        return epoch;
                    }
                    proof {
                        assert(!holds_back(old(registries), ord[jo], epoch));
                        lemma_walked_run(old(registries), epoch, jo, jo + 1);
                        i = jo + 1;
                    }
                },
            }
        }
        proof {
            iter.lemma_in_list(registries);
            registries.lemma_order_in_arena();
            assert(walked(old(registries), epoch, ord.len() as int) == ord.len());
            assert(registries.order() =~= old(registries).kept(ord.len() as int) + ord.subrange(
                ord.len() as int,
                ord.len() as int,
            ));
            assert forall|s: int| is_live(registries, s) <==> is_live(old(registries), s) by {
                if registries.order().contains(s) {
                    assert(ord.contains(s));
                }
            }
            assert forall|slot: int| !holds_back(old(registries), slot, epoch) by {
                if is_live(old(registries), slot) {
                    assert(registries.order().contains(slot));
                    let k = choose|k: int|
                        0 <= k < registries.order().len() && registries.order()[k] == slot;
                    assert(!holds_back(old(registries), registries.order()[k], epoch));
                }
            }
        }
        // All pinned participants were pinned in the current global epoch:
        // advance it by 2, wrapping around on overflow.
        let epoch_new = epoch.wrapping_add(2);
        self.store(epoch_new, Order::Release);
        epoch_new
    }
}

} // verus!
