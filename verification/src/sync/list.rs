//! A singly-linked list after Michael's lock-free linked list.
//!
//! Nodes are inserted at the head. A node is deleted in two steps: first the
//! low bit of its `next` word is set, which deletes it logically; later the
//! iterator that walks past it swings the `next` word of its predecessor to
//! its successor, which unlinks it.
//!
//! The nodes live in an arena that the list owns. A node is known by its slot
//! in the arena, and the word that links to the node in slot `s` is
//! `2 * (s + 1)`: the low bit is free for the deleted flag and 0 is null.
//!
//! The slot of an entry that was unlinked under a pin waits until the list
//! is told to reclaim it; the slot of one that was unlinked without a pin is
//! free at once. A free slot is used again for a later entry.
//!
//! An iterator swings a cell only if the cell still holds the link that the
//! iterator took from it. If it does not, another iterator was there first:
//! the race is lost, and the iterator says so once and goes on from what
//! the cell holds now.
use vstd::prelude::*;
use crate::atomic::address_of;
use crate::atomic::compose;
use crate::atomic::tag_of;
use crate::guard::Guard;

verus! {

/// The slot that a link word points to, plus one; 0 if the word is null.
pub open spec fn link_target(word: usize) -> int {
    word as int / 2
}

/// Whether the deleted flag of a link word is set.
pub open spec fn link_marked(word: usize) -> bool {
    word % 2 == 1
}

/// The largest number of nodes that an arena can address with one word.
pub open spec fn max_nodes() -> int {
    (usize::MAX as int - 1) / 2 - 1
}

proof fn lemma_link_bits(word: usize)
    ensures
        word & 1 == word % 2,
        (word & !1usize) % 2 == 0,
        (word & !1usize) as int / 2 == word as int / 2,
        (word | 1) % 2 == 1,
        (word | 1) as int / 2 == word as int / 2,
{
    assert(word & 1 == word % 2) by (bit_vector);
    assert((word & !1usize) % 2 == 0) by (bit_vector);
    assert((word & !1usize) / 2 == word / 2) by (bit_vector);
    assert((word | 1) % 2 == 1) by (bit_vector);
    assert((word | 1) / 2 == word / 2) by (bit_vector);
}

/// A link word is a tagged word with one tag bit: the tag is the deleted
/// flag, and the address is twice what the word points to.
pub proof fn lemma_link_is_tagged(word: usize)
    ensures
        link_marked(word) == (tag_of(1, word) == 1),
        address_of(1, word) == 2 * link_target(word),
        !link_marked(compose(1, word, 0)),
        link_target(compose(1, word, 0)) == link_target(word),
        link_marked(compose(1, word, 1)),
        link_target(compose(1, word, 1)) == link_target(word),
{
    assert(word & 1 == word % 2) by (bit_vector);
    assert(word & !1usize == 2 * (word / 2)) by (bit_vector);
    assert(((word & !1usize) | (0usize & 1)) % 2 == 0) by (bit_vector);
    assert(((word & !1usize) | (0usize & 1)) / 2 == word / 2) by (bit_vector);
    assert(((word & !1usize) | (1usize & 1)) % 2 == 1) by (bit_vector);
    assert(((word & !1usize) | (1usize & 1)) / 2 == word / 2) by (bit_vector);
}

/// A sequence without duplicates stays so when a value that it does not
/// hold is put into it, and it holds nothing else new.
proof fn lemma_pool_grows(pool: Seq<usize>, at: int, slot: usize)
    requires
        0 <= at <= pool.len(),
        pool.no_duplicates(),
        !pool.contains(slot),
    ensures
        pool.insert(at, slot).no_duplicates(),
        forall|k: int|
            0 <= k < pool.insert(at, slot).len() ==> (#[trigger] pool.insert(at, slot)[k]) == slot
                || pool.contains(pool.insert(at, slot)[k]),
{
    let grown = pool.insert(at, slot);
    assert forall|k: int| 0 <= k < grown.len() implies (#[trigger] grown[k]) == slot
        || pool.contains(grown[k]) by {
        if k < at {
            assert(grown[k] == pool[k]);
        } else if k > at {
            assert(grown[k] == pool[k - 1]);
        }
    }
    assert forall|i: int, j: int| 0 <= i < grown.len()
        && 0 <= j < grown.len()
        && i != j implies grown[i] != grown[j] by {
        let i2 = if i < at { i } else { i - 1 };
        let j2 = if j < at { j } else { j - 1 };
        if i != at {
            assert(grown[i] == pool[i2]);
            assert(pool.contains(pool[i2]));
        }
        if j != at {
            assert(grown[j] == pool[j2]);
            assert(pool.contains(pool[j2]));
        }
    }
}

/// The error of an iterator.
#[derive(Clone, Copy, Debug, PartialEq, Eq, Structural)]
pub enum IterError {
    /// The iterator lost the race to unlink a node to another iterator.
    LostRace,
}

/// An entry of the list.
pub struct Node<T> {
    /// The data in the entry.
    data: T,
    /// The link to the next entry. If its low bit is 1, this entry is marked
    /// as deleted.
    next: usize,
}

impl<T> Node<T> {
    /// The data in the entry.
    pub closed spec fn payload(&self) -> T {
        self.data
    }

    /// The link to the next entry.
    pub closed spec fn link(&self) -> usize {
        self.next
    }

    /// Whether the entry is marked as deleted.
    pub open spec fn is_deleted(&self) -> bool {
        link_marked(self.link())
    }

    fn new(data: T) -> (node: Self)
        ensures
            node.payload() == data,
            node.link() == 0,
    {
        Node { data: data, next: 0 }
    }

    /// Returns the data in this entry.
    pub fn get(&self) -> (data: &T)
        ensures
            *data == self.payload(),
    {
        &self.data
    }

    /// Tells whether this entry is marked as deleted.
    pub fn is_marked(&self) -> (marked: bool)
        ensures
            marked == self.is_deleted(),
    {
        proof {
            lemma_link_bits(self.next);
        }
        self.next & 1 == 1
    }

    /// Marks this entry as deleted. Its successor stays what it was.
    pub fn delete(&mut self, _guard: &Guard)
        ensures
            final(self).is_deleted(),
            link_target(final(self).link()) == link_target(old(self).link()),
            final(self).payload() == old(self).payload(),
    {
        proof {
            lemma_link_bits(self.next);
        }
        self.next = self.next | 1;
    }
}

/// A list of `T`, newest entry first.
pub struct List<T> {
    /// The link to the first entry.
    head: usize,
    /// The arena of the entries, by slot.
    nodes: Vec<Node<T>>,
    /// The slots of the entries that were unlinked under a pin and wait to
    /// be reclaimed.
    retired: Vec<usize>,
    /// The slots that hold no entry any more and can be used again.
    free: Vec<usize>,
    /// The slots of the entries that are linked, in list order.
    chain: Ghost<Seq<int>>,
}

impl<T> List<T> {
    /// The number of slots of the arena.
    pub closed spec fn slots(&self) -> int {
        self.nodes@.len() as int
    }

    /// The entry in a slot.
    pub closed spec fn node(&self, slot: int) -> Node<T> {
        self.nodes@[slot]
    }

    /// The slots of the linked entries, head first.
    pub closed spec fn order(&self) -> Seq<int> {
        self.chain@
    }

    /// The slots of the entries that were unlinked and wait to be reclaimed,
    /// oldest first.
    pub closed spec fn parked(&self) -> Seq<usize> {
        self.retired@
    }

    /// The slots that can be used again; the last is used next.
    pub closed spec fn reusable(&self) -> Seq<usize> {
        self.free@
    }

    /// The slots of a part of the chain.
    pub open spec fn as_slots(part: Seq<int>) -> Seq<usize> {
        Seq::new(part.len(), |i: int| part[i] as usize)
    }

    /// The word that must link to position `i` of the chain: null at the end.
    pub open spec fn link_to(order: Seq<int>, i: int) -> int {
        if 0 <= i < order.len() {
            order[i] + 1
        } else {
            0
        }
    }

    /// The list is well formed: the links lead from the head through the
    /// entries of `order()`, each once, and end in null; every other slot
    /// is parked or reusable and holds an entry that is marked as deleted.
    pub closed spec fn wf(&self) -> bool {
        &&& self.nodes@.len() <= max_nodes()
        &&& self.chain@.no_duplicates()
        &&& forall|i: int| 0 <= i < self.chain@.len()
            ==> 0 <= #[trigger] self.chain@[i] < self.nodes@.len()
        &&& !link_marked(self.head)
        &&& link_target(self.head) == Self::link_to(self.chain@, 0)
        &&& forall|i: int|
            0 <= i < self.chain@.len() ==> link_target(
                #[trigger] self.nodes@[self.chain@[i]].next,
            ) == Self::link_to(self.chain@, i + 1)
        &&& (self.retired@ + self.free@).no_duplicates()
        &&& forall|k: int|
            0 <= k < (self.retired@ + self.free@).len() ==> (#[trigger] (self.retired@
                + self.free@)[k]) < self.nodes@.len() && !self.chain@.contains(
                (self.retired@ + self.free@)[k] as int,
            ) && link_marked(self.nodes@[(self.retired@ + self.free@)[k] as int].next)
                && link_target(self.nodes@[(self.retired@ + self.free@)[k] as int].next)
                <= self.nodes@.len()
        &&& forall|s: int|
            0 <= s < self.nodes@.len() ==> #[trigger] Self::placed(
                self.chain@,
                self.retired@ + self.free@,
                s,
            )
    }

    /// The slot `s` is linked, or else parked or reusable.
    spec fn placed(chain: Seq<int>, pool: Seq<usize>, s: int) -> bool {
        chain.contains(s) || pool.contains(s as usize)
    }

    /// The word in the cell that links to an entry: the head of the list for
    /// 0, else the `next` word of the entry in the slot `pred - 1`.
    pub closed spec fn cell(&self, pred: usize) -> usize {
        if pred == 0 {
            self.head
        } else {
            self.nodes@[pred - 1].next
        }
    }

    /// An entry that is not marked as deleted is linked.
    pub proof fn lemma_unmarked_is_linked(&self, slot: int)
        requires
            self.wf(),
            0 <= slot < self.slots(),
            !self.node(slot).is_deleted(),
        ensures
            self.order().contains(slot),
    {
        let pool = self.retired@ + self.free@;
        assert(Self::placed(self.chain@, pool, slot));
        if pool.contains(slot as usize) {
            let k = choose|k: int| 0 <= k < pool.len() && pool[k] == slot as usize;
            assert(link_marked(self.nodes@[pool[k] as int].next));
        }
    }

    /// In a well-formed list the linked slots are slots of the arena, each
    /// linked once, and no slot that is parked or reusable is linked.
    pub proof fn lemma_order_in_arena(&self)
        requires
            self.wf(),
        ensures
            self.order().no_duplicates(),
            self.slots() <= max_nodes(),
            forall|i: int| 0 <= i < self.order().len()
                ==> 0 <= #[trigger] self.order()[i] < self.slots(),
            (self.parked() + self.reusable()).no_duplicates(),
            forall|k: int|
                0 <= k < self.parked().len() ==> (#[trigger] self.parked()[k]) < self.slots()
                    && !self.order().contains(self.parked()[k] as int),
            forall|k: int|
                0 <= k < self.reusable().len() ==> (#[trigger] self.reusable()[k]) < self.slots()
                    && !self.order().contains(self.reusable()[k] as int),
    {
        let both = self.retired@ + self.free@;
        assert forall|k: int| 0 <= k < self.parked().len() implies (#[trigger] self.parked()[k])
            < self.slots() && !self.order().contains(self.parked()[k] as int) by {
            assert(both[k] == self.retired@[k]);
        }
        assert forall|k: int| 0 <= k < self.reusable().len() implies (
        #[trigger] self.reusable()[k]) < self.slots() && !self.order().contains(
            self.reusable()[k] as int,
        ) by {
            assert(both[self.retired@.len() + k] == self.free@[k]);
        }
    }

    /// Returns a new, empty linked list.
    pub fn new() -> (list: Self)
        ensures
            list.wf(),
            list.order() == Seq::<int>::empty(),
            list.slots() == 0,
            list.parked() == Seq::<usize>::empty(),
            list.reusable() == Seq::<usize>::empty(),
    {
        List {
            head: 0,
            nodes: Vec::new(),
            retired: Vec::new(),
            free: Vec::new(),
            chain: Ghost(Seq::empty()),
        }
    }

    /// Returns the number of slots of the arena: those of the entries that
    /// are linked and those that wait to be reclaimed or used again.
    pub fn len(&self) -> (len: usize)
        ensures
            len == self.slots(),
    {
        self.nodes.len()
    }

    /// Tells whether the entry in the slot `slot` is linked, by walking the
    /// list from its head.
    pub fn is_linked(&self, slot: usize) -> (linked: bool)
        requires
            self.wf(),
        ensures
            linked == self.order().contains(slot as int),
    {
        let mut curr = self.head;
        let ghost mut i = 0int;
        while curr / 2 != 0
            invariant
                self.wf(),
                0 <= i <= self.chain@.len(),
                link_target(curr) == Self::link_to(self.chain@, i),
                forall|k: int| 0 <= k < i ==> self.chain@[k] != slot,
            decreases self.chain@.len() - i,
        {
            let c = curr / 2 - 1;
            assert(c == self.chain@[i]);
            if c == slot {
                return true;
            }
            curr = self.nodes[c].next;
            proof {
                i = i + 1;
            }
        }
        false
    }

    /// Returns the entry in the slot `slot`.
    pub fn get(&self, slot: usize) -> (node: &Node<T>)
        requires
            slot < self.slots(),
        ensures
            *node == self.node(slot as int),
    {
        &self.nodes[slot]
    }

    /// Returns the data of the entry in the slot `slot` for change. The links
    /// stay as they are.
    pub fn get_mut(&mut self, slot: usize) -> (data: &mut T)
        requires
            old(self).wf(),
            slot < old(self).slots(),
        ensures
            *data == old(self).node(slot as int).payload(),
            final(self).wf(),
            final(self).node(slot as int).payload() == *final(data),
            final(self).node(slot as int).link() == old(self).node(slot as int).link(),
            final(self).order() == old(self).order(),
            final(self).slots() == old(self).slots(),
            final(self).parked() == old(self).parked(),
            final(self).reusable() == old(self).reusable(),
            forall|s: int|
                0 <= s < old(self).slots() && s != slot ==> final(self).node(s) == old(self).node(
                    s,
                ),
    {
        &mut self.nodes[slot].data
    }

    /// Puts `data` in place of the data of the entry in the slot `slot`, and
    /// returns what was there. The links stay as they are.
    pub fn replace(&mut self, slot: usize, data: T) -> (previous: T)
        requires
            old(self).wf(),
            slot < old(self).slots(),
        ensures
            final(self).wf(),
            previous == old(self).node(slot as int).payload(),
            final(self).node(slot as int).payload() == data,
            final(self).node(slot as int).link() == old(self).node(slot as int).link(),
            final(self).order() == old(self).order(),
            final(self).slots() == old(self).slots(),
            final(self).parked() == old(self).parked(),
            final(self).reusable() == old(self).reusable(),
            forall|s: int|
                0 <= s < old(self).slots() && s != slot ==> final(self).node(s) == old(self).node(
                    s,
                ),
    {
        let mut data = data;
        core::mem::swap(&mut self.nodes[slot].data, &mut data);
        data
    }

    /// Inserts `data` at the head of the list and returns the slot of the new
    /// entry.
    ///
    /// The entry takes the slot that was given up last, if there is one, and
    /// a new slot of the arena otherwise.
    pub fn insert(&mut self, data: T, _guard: &Guard) -> (slot: usize)
        requires
            old(self).wf(),
            old(self).slots() < max_nodes(),
        ensures
            final(self).wf(),
            slot < final(self).slots(),
            !old(self).order().contains(slot as int),
            old(self).reusable().len() > 0
                ==> slot == old(self).reusable().last()
                    && final(self).reusable() == old(self).reusable().drop_last()
                    && final(self).slots() == old(self).slots(),
            old(self).reusable().len() == 0
                ==> slot == old(self).slots()
                    && final(self).reusable() == old(self).reusable()
                    && final(self).slots() == old(self).slots() + 1,
            final(self).parked() == old(self).parked(),
            final(self).order() == seq![slot as int] + old(self).order(),
            final(self).node(slot as int).payload() == data,
            !final(self).node(slot as int).is_deleted(),
            forall|s: int|
                0 <= s < old(self).slots() && s != slot ==> final(self).node(s) == old(self).node(
                    s,
                ),
    {
        let node = Node::new(data);
        proof {
            self.lemma_order_in_arena();
        }
        let ghost both = self.retired@ + self.free@;
        let slot = match self.free.pop() {
            Some(slot) => {
                assert(both[both.len() - 1] == slot);
                self.nodes[slot] = node;
                slot
            },
            None => {
                let slot = self.nodes.len();
                self.nodes.push(node);
                slot
            },
        };
        let ghost rest = self.retired@ + self.free@;
        proof {
            assert forall|k: int| 0 <= k < rest.len() implies rest[k] == both[k] && rest[k]
                != slot && (#[trigger] rest[k]) < old(self).nodes@.len()
                    && !old(self).chain@.contains(rest[k] as int) by {
                assert(rest[k] == both[k]);
                if old(self).free@.len() > 0 {
                    assert(both[both.len() - 1] == slot);
                }
            }
            assert(rest.no_duplicates()) by {
                assert forall|i: int, j: int|
                    0 <= i < rest.len() && 0 <= j < rest.len() && i != j implies rest[i]
                    != rest[j] by {
                    assert(rest[i] == both[i]);
                    assert(rest[j] == both[j]);
                }
            }
        }
        let word = 2 * (slot + 1);
        let mut next = self.head;
        loop
            invariant
                next == self.head,
                self.head == old(self).head,
                self.chain@ == old(self).chain@,
                self.retired@ + self.free@ == rest,
                old(self).wf(),
                rest.no_duplicates(),
                both == old(self).retired@ + old(self).free@,
                rest.len() <= both.len(),
                forall|k: int| 0 <= k < rest.len() ==> rest[k] == both[k],
                old(self).free@.len() > 0
                    ==> rest.len() == both.len() - 1 && both[both.len() - 1] == slot,
                old(self).free@.len() == 0 ==> rest.len() == both.len(),
                forall|k: int|
                    0 <= k < rest.len()
                        ==> rest[k] != slot
                            && (#[trigger] rest[k]) < old(self).nodes@.len()
                            && !old(self).chain@.contains(rest[k] as int),
                self.retired@ == old(self).retired@,
                old(self).free@.len() > 0
                    ==> slot == old(self).free@.last()
                        && self.free@ == old(self).free@.drop_last()
                        && self.nodes@.len() == old(self).nodes@.len(),
                old(self).free@.len() == 0
                    ==> slot == old(self).nodes@.len()
                        && self.free@ == old(self).free@
                        && self.nodes@.len() == old(self).nodes@.len() + 1,
                !old(self).chain@.contains(slot as int),
                slot < max_nodes(),
                word == 2 * (slot + 1),
                slot < self.nodes@.len(),
                self.nodes@.len() <= max_nodes(),
                self.nodes@.len() >= old(self).nodes@.len(),
                self.nodes@[slot as int].data == data,
                forall|s: int|
                    0 <= s < old(self).nodes@.len() && s != slot
                        ==> self.nodes@[s] == old(self).nodes@[s],
            decreases 0int,
        {
            self.nodes[slot].next = next;
            if self.head == next {
                self.head = word;
                proof {
                    let before = self.chain@;
                    let after = seq![slot as int] + before;
                    self.chain = Ghost(after);
                    assert forall|i: int| 0 <= i < before.len() implies before[i] != slot by {
                        assert(before.contains(before[i]));
                    }
                    assert forall|i: int| 0 <= i < after.len() implies 0 <= #[trigger] after[i]
                        < self.nodes@.len() by {
                        if i > 0 {
                            assert(after[i] == before[i - 1]);
                        }
                    }
                    assert(after.no_duplicates()) by {
                        assert forall|i: int, j: int|
                            0 <= i < after.len() && 0 <= j < after.len() && i != j implies after[i]
                            != after[j] by {
                            if i > 0 {
                                assert(after[i] == before[i - 1]);
                            }
                            if j > 0 {
                                assert(after[j] == before[j - 1]);
                            }
                        }
                    }
                    assert forall|i: int| 0 <= i < after.len() implies link_target(
                        #[trigger] self.nodes@[after[i]].next,
                    ) == Self::link_to(after, i + 1) by {
                        if i > 0 {
                            assert(after[i] == before[i - 1]);
                            assert(self.nodes@[before[i - 1]] == old(self).nodes@[before[i - 1]]);
                            assert(Self::link_to(after, i + 1) == Self::link_to(before, i));
                        } else {
                            assert(after[0] == slot);
                            assert(self.nodes@[slot as int].next == next);
                            assert(Self::link_to(after, 1) == Self::link_to(before, 0));
                        }
                    }
                    assert forall|s: int| 0 <= s < self.nodes@.len() implies #[trigger] Self::placed(
                        after,
                        rest,
                        s,
                    ) by {
                        if s == slot {
                            assert(after[0] == slot);
                        } else {
                            assert(Self::placed(before, both, s));
                            if before.contains(s) {
                                let i = choose|i: int| 0 <= i < before.len() && before[i] == s;
                                assert(after[i + 1] == s);
                            } else {
                                let k = choose|k: int| 0 <= k < both.len() && both[k] == s as usize;
                                if k < rest.len() {
                                    assert(rest[k] == both[k]);
                                } else {
                                    assert(both[both.len() - 1] == slot);
                                }
                            }
                        }
                    }
                    assert forall|k: int| 0 <= k < rest.len() implies link_marked(
                        self.nodes@[(#[trigger] rest[k]) as int].next,
                    ) && link_target(self.nodes@[rest[k] as int].next) <= self.nodes@.len() by {
                        assert(rest[k] == both[k]);
                        assert(self.nodes@[rest[k] as int] == old(self).nodes@[rest[k] as int]);
                        assert(link_marked(old(self).nodes@[both[k] as int].next));
                    }
                    assert forall|k: int| 0 <= k < rest.len() implies (#[trigger] rest[k])
                        < self.nodes@.len() && !after.contains(rest[k] as int) by {
                        if after.contains(rest[k] as int) {
                            let i = choose|i: int| 0 <= i < after.len() && after[i] == rest[k];
                            if i > 0 {
                                assert(before[i - 1] == rest[k]);
                                assert(before.contains(rest[k] as int));
                            }
                        }
                    }
                }
                return slot;
            } else {
                next = self.head;
            }
        }
    }

    /// Returns the number of slots that wait to be reclaimed.
    pub fn parked_len(&self) -> (len: usize)
        ensures
            len == self.parked().len(),
    {
        self.retired.len()
    }

    /// Gives the slots of the entries that wait to be reclaimed free for
    /// use, and returns how many they were.
    pub fn reclaim(&mut self) -> (count: usize)
        requires
            old(self).wf(),
        ensures
            final(self).wf(),
            count == old(self).parked().len(),
            final(self).parked() == Seq::<usize>::empty(),
            final(self).reusable() == old(self).reusable() + old(self).parked(),
            final(self).order() == old(self).order(),
            final(self).slots() == old(self).slots(),
            forall|s: int| 0 <= s < old(self).slots() ==> final(self).node(s) == old(self).node(s),
    {
        let count = self.retired.len();
        self.reclaim_first(count);
        proof {
            let parked = old(self).parked();
            assert(parked.subrange(count as int, parked.len() as int) =~= Seq::<usize>::empty());
            assert(parked.subrange(0, count as int) =~= parked);
        }
        count
    }

    /// Gives the slots of the `count` entries that have waited longest to be
    /// reclaimed free for use. The others go on waiting.
    pub fn reclaim_first(&mut self, count: usize)
        requires
            old(self).wf(),
            count <= old(self).parked().len(),
        ensures
            final(self).wf(),
            final(self).parked() == old(self).parked().subrange(
                count as int,
                old(self).parked().len() as int,
            ),
            final(self).reusable() == old(self).reusable() + old(self).parked().subrange(
                0,
                count as int,
            ),
            final(self).order() == old(self).order(),
            final(self).slots() == old(self).slots(),
            forall|s: int| 0 <= s < old(self).slots() ==> final(self).node(s) == old(self).node(s),
    {
        let ghost both = self.retired@ + self.free@;
        let rest = self.retired.split_off(count);
        self.free.append(&mut self.retired);
        self.retired = rest;
        proof {
            let after = self.retired@ + self.free@;
            let r = old(self).retired@.len() as int;
            let f = old(self).free@.len() as int;
            let n = count as int;
            let cut = r - n + f;
            assert forall|k: int| 0 <= k < after.len() implies #[trigger] after[k] == both[if k
                < cut {
                k + n
            } else {
                k - cut
            }] by {}
            assert forall|k: int| 0 <= k < after.len() implies (#[trigger] after[k])
                < self.nodes@.len() && !self.chain@.contains(after[k] as int) && link_marked(
                self.nodes@[after[k] as int].next,
            ) && link_target(self.nodes@[after[k] as int].next) <= self.nodes@.len() by {
                let k2 = if k < cut { k + n } else { k - cut };
                assert(after[k] == both[k2]);
                assert(link_marked(old(self).nodes@[both[k2] as int].next));
            }
            assert(after.no_duplicates()) by {
                assert forall|i: int, j: int|
                    0 <= i < after.len() && 0 <= j < after.len() && i != j implies after[i]
                    != after[j] by {
                    let i2 = if i < cut { i + n } else { i - cut };
                    let j2 = if j < cut { j + n } else { j - cut };
                    assert(after[i] == both[i2]);
                    assert(after[j] == both[j2]);
                }
            }
            assert forall|s: int| 0 <= s < self.nodes@.len() implies #[trigger] Self::placed(
                self.chain@,
                after,
                s,
            ) by {
                assert(Self::placed(old(self).chain@, both, s));
                if !self.chain@.contains(s) {
                    let k = choose|k: int| 0 <= k < both.len() && both[k] == s as usize;
                    let k2 = if k < n { k + cut } else { k - n };
                    assert(after[k2] == both[k]);
                }
            }
        }
    }

    /// Marks the entry in the slot `slot` as deleted. It stays linked until an
    /// iterator walks past it.
    pub fn delete(&mut self, slot: usize, guard: &Guard)
        requires
            old(self).wf(),
            slot < old(self).slots(),
        ensures
            final(self).wf(),
            final(self).node(slot as int).is_deleted(),
            final(self).node(slot as int).payload() == old(self).node(slot as int).payload(),
            final(self).order() == old(self).order(),
            final(self).slots() == old(self).slots(),
            final(self).parked() == old(self).parked(),
            final(self).reusable() == old(self).reusable(),
            forall|s: int|
                0 <= s < old(self).slots() && s != slot ==> final(self).node(s) == old(self).node(
                    s,
                ),
    {
        self.nodes[slot].delete(guard);
    }
}


impl<T> List<T> {
    /// The first position from `pos` on whose entry is not marked as deleted,
    /// or the length of the chain if there is none.
    pub open spec fn first_unmarked(&self, pos: int) -> int
        decreases self.order().len() - pos,
    {
        if pos < 0 || pos >= self.order().len() {
            self.order().len() as int
        } else if self.node(self.order()[pos]).is_deleted() {
            self.first_unmarked(pos + 1)
        } else {
            pos
        }
    }

    /// `first_unmarked(pos)` is the first position from `pos` on that is not
    /// marked: every entry between the two is marked.
    pub proof fn lemma_first_unmarked(&self, pos: int)
        requires
            0 <= pos <= self.order().len(),
        ensures
            pos <= self.first_unmarked(pos) <= self.order().len(),
            forall|k: int|
                pos <= k < self.first_unmarked(pos) ==> self.node(
                    #[trigger] self.order()[k],
                ).is_deleted(),
            self.first_unmarked(pos) < self.order().len() ==> !self.node(
                self.order()[self.first_unmarked(pos)],
            ).is_deleted(),
        decreases self.order().len() - pos,
    {
        if pos < self.order().len() && self.node(self.order()[pos]).is_deleted() {
            self.lemma_first_unmarked(pos + 1);
        }
    }

    /// Skipping the marked entries from `pos` on loses no entry that is not
    /// marked and adds none.
    pub proof fn lemma_skip_marked(&self, pos: int, rest: Seq<int>)
        requires
            0 <= pos <= self.order().len(),
            rest == self.order().subrange(0, pos) + self.order().subrange(
                self.first_unmarked(pos),
                self.order().len() as int,
            ),
        ensures
            forall|s: int| rest.contains(s) ==> self.order().contains(s),
            forall|s: int|
                self.order().contains(s) && !self.node(s).is_deleted() ==> rest.contains(s),
    {
        let ord = self.order();
        let j = self.first_unmarked(pos);
        self.lemma_first_unmarked(pos);
        assert forall|s: int| rest.contains(s) implies ord.contains(s) by {
            let k = choose|k: int| 0 <= k < rest.len() && rest[k] == s;
            if k < pos {
                assert(ord[k] == s);
            } else {
                assert(ord[k - pos + j] == s);
            }
        }
        assert forall|s: int| ord.contains(s) && !self.node(s).is_deleted() implies rest.contains(
            s,
        ) by {
            let k = choose|k: int| 0 <= k < ord.len() && ord[k] == s;
            if k < pos {
                assert(rest[k] == s);
            } else {
                assert(k >= j);
                assert(rest[k - j + pos] == s);
            }
        }
    }

    /// Returns an iterator that stands before the first entry.
    ///
    /// Every entry that is in the list when the iterator is made, and is not
    /// marked as deleted when the iterator reaches it, is returned.
    pub fn iter(&self, _guard: &Guard) -> (iter: Iter)
        requires
            self.wf(),
        ensures
            iter.wf(self),
            iter.position() == 0,
    {
        Iter { pred: 0, curr: self.head, pos: Ghost(0) }
    }

    /// Reads the cell that `pred` names: the head of the list for 0, else
    /// the `next` word of the entry in the slot `pred - 1`.
    fn load_link(&self, pred: usize) -> (word: usize)
        requires
            pred <= self.nodes@.len(),
        ensures
            word == self.cell(pred),
    {
        if pred == 0 {
            self.head
        } else {
            self.nodes[pred - 1].next
        }
    }

    /// An iterator with the cell `pred` and the link `curr` stands at the
    /// position `pos` of the chain: the cell is the one before that
    /// position and holds the link, which leads to the entry there.
    pub closed spec fn stands_at(&self, pred: usize, curr: usize, pos: int) -> bool {
        &&& 0 <= pos <= self.chain@.len()
        &&& curr == 2 * Self::link_to(self.chain@, pos)
        &&& pred == Self::link_to(self.chain@, pos - 1)
        &&& pos > 0 ==> self.nodes@[self.chain@[pos - 1]].next == curr
    }

    /// What a walk from the position `pos` of the list `before` leaves,
    /// `self`, and returns: the marked entries from `pos` on up to the first
    /// that is not marked are unlinked, and that one is returned, or `None`
    /// at the end. Under a pin the slots of the unlinked entries wait to be
    /// reclaimed; without one they are free at once.
    pub open spec fn walked(
        &self,
        before: &List<T>,
        pos: int,
        protected: bool,
        r: Option<Result<usize, IterError>>,
    ) -> bool {
        let stop = before.first_unmarked(pos);
        let gone = Self::as_slots(before.order().subrange(pos, stop));
        &&& self.order() == before.order().subrange(0, pos) + before.order().subrange(
            stop,
            before.order().len() as int,
        )
        &&& protected ==> self.reusable() == before.reusable() && self.parked() == before.parked()
            + gone
        &&& !protected ==> self.parked() == before.parked() && self.reusable()
            == before.reusable() + gone
        &&& stop < before.order().len() ==> r == Some(
            Ok::<usize, IterError>(before.order()[stop] as usize),
        )
        &&& stop >= before.order().len() ==> r is None
    }

    /// Every cell holds a link to a slot of the arena, or null.
    proof fn lemma_cell_fits(&self, pred: usize)
        requires
            self.wf(),
            pred <= self.nodes@.len(),
        ensures
            link_target(self.cell(pred)) <= self.nodes@.len(),
    {
        let chain = self.chain@;
        let pool = self.retired@ + self.free@;
        if pred == 0 {
            if chain.len() > 0 {
                assert(chain[0] < self.nodes@.len());
            }
        } else {
            let p = pred - 1;
            assert(Self::placed(chain, pool, p));
            if chain.contains(p) {
                let i = choose|i: int| 0 <= i < chain.len() && chain[i] == p;
                assert(link_target(self.nodes@[chain[i]].next) == Self::link_to(chain, i + 1));
                if i + 1 < chain.len() {
                    assert(chain[i + 1] < self.nodes@.len());
                }
            } else {
                let k = choose|k: int| 0 <= k < pool.len() && pool[k] == p as usize;
                assert(link_target(self.nodes@[pool[k] as int].next) <= self.nodes@.len());
            }
        }
    }

    /// A cell that holds an unmarked link is the head or belongs to a linked
    /// entry, and the link leads to the entry behind it in the chain: an
    /// iterator with that cell and that link stands at a position.
    proof fn lemma_stands(&self, pred: usize, curr: usize) -> (pos: int)
        requires
            self.wf(),
            pred <= self.nodes@.len(),
            self.cell(pred) == curr,
            !link_marked(curr),
        ensures
            0 <= pos <= self.chain@.len(),
            curr == 2 * Self::link_to(self.chain@, pos),
            pred == Self::link_to(self.chain@, pos - 1),
            pos > 0 ==> self.nodes@[self.chain@[pos - 1]].next == curr,
    {
        if pred == 0 {
            0
        } else {
            let p = pred - 1;
            self.lemma_unmarked_is_linked(p);
            let i = choose|i: int| 0 <= i < self.chain@.len() && self.chain@[i] == p;
            assert(link_target(self.nodes@[self.chain@[i]].next) == Self::link_to(
                self.chain@,
                i + 1,
            ));
            i + 1
        }
    }

    /// Compare-and-set on the cell that `pred` names: the head of the list
    /// for 0, else the `next` word of the entry in the slot `pred - 1`.
    fn cas_link(&mut self, pred: usize, current: usize, new: usize) -> (r: Result<(), usize>)
        requires
            pred <= old(self).nodes@.len(),
        ensures
            final(self).chain@ == old(self).chain@,
            final(self).retired@ == old(self).retired@,
            final(self).free@ == old(self).free@,
            final(self).nodes@.len() == old(self).nodes@.len(),
            forall|s: int|
                0 <= s < old(self).nodes@.len()
                    ==> (#[trigger] final(self).nodes@[s]).data == old(self).nodes@[s].data,
            forall|s: int|
                0 <= s < old(self).nodes@.len() && s != pred - 1
                    ==> (#[trigger] final(self).nodes@[s]).next == old(self).nodes@[s].next,
            pred != 0 ==> final(self).head == old(self).head,
            pred == 0 && old(self).head == current ==> r is Ok && final(self).head == new,
            pred == 0 && old(self).head != current ==> r == Err::<(), usize>(old(self).head)
                && final(self).head == old(self).head,
            pred != 0 && old(self).nodes@[pred - 1].next == current
                ==> r is Ok && final(self).nodes@[pred - 1].next == new,
            pred != 0 && old(self).nodes@[pred - 1].next != current ==> r == Err::<(), usize>(
                old(self).nodes@[pred - 1].next,
            ) && final(self).nodes@[pred - 1].next == old(self).nodes@[pred - 1].next,
    {
        if pred == 0 {
            if self.head == current {
                self.head = new;
                Ok(())
            } else {
                Err(self.head)
            }
        } else {
            let actual = self.nodes[pred - 1].next;
            if actual == current {
                self.nodes[pred - 1].next = new;
                Ok(())
            } else {
                Err(actual)
            }
        }
    }
}

/// An iterator over the entries of a list.
///
/// It remembers the cell that links to the current entry, so that it can
/// unlink the entry if that is marked as deleted. An iterator does not
/// borrow its list between two steps, so the list can change behind its
/// back; [`Iter::next`] says what an iterator does that is out of step.
pub struct Iter {
    /// The cell that links to the current entry: 0 for the head of the list,
    /// else the slot of the predecessor plus one.
    pred: usize,
    /// The link to the current entry.
    curr: usize,
    /// The position of the current entry in the chain.
    pos: Ghost<int>,
}

impl Iter {
    /// The position in `order()` of the entry that comes next.
    pub closed spec fn position(&self) -> int {
        self.pos@
    }

    /// The iterator stands at `position()` of `list`.
    pub closed spec fn wf<T>(&self, list: &List<T>) -> bool {
        &&& list.wf()
        &&& 0 <= self.pos@ <= list.chain@.len()
        &&& self.curr == 2 * List::<T>::link_to(list.chain@, self.pos@)
        &&& self.pred == List::<T>::link_to(list.chain@, self.pos@ - 1)
        &&& self.pos@ > 0 ==> list.nodes@[list.chain@[self.pos@ - 1]].next == self.curr
    }

    /// An iterator can only stand in a well-formed list, at a position of
    /// its chain or at its end.
    pub proof fn lemma_in_list<T>(&self, list: &List<T>)
        requires
            self.wf(list),
        ensures
            list.wf(),
            0 <= self.position() <= list.order().len(),
            self.fits(list),
            self.in_step(list),
            self.standing(list) == self.position(),
    {
        self.lemma_in_step(list);
    }

    /// The link to the entry that comes next.
    pub closed spec fn word(&self) -> usize {
        self.curr
    }

    /// The cell that the iterator took that link from: 0 for the head of the
    /// list, else the slot of the predecessor plus one.
    pub closed spec fn behind(&self) -> usize {
        self.pred
    }

    /// The position of `list` at which the iterator stands, if it is in
    /// step with it.
    pub closed spec fn standing<T>(&self, list: &List<T>) -> int {
        if self.wf(list) {
            self.pos@
        } else {
            choose|pos: int| list.stands_at(self.pred, self.curr, pos)
        }
    }

    /// The iterator speaks of slots of the arena of `list`. Every iterator
    /// that was made for a list fits it ever after.
    pub open spec fn fits<T>(&self, list: &List<T>) -> bool {
        &&& self.behind() <= list.slots()
        &&& link_target(self.word()) <= list.slots()
    }

    /// The iterator is in step with `list`: the cell behind it still holds
    /// its link.
    pub open spec fn in_step<T>(&self, list: &List<T>) -> bool {
        list.cell(self.behind()) == self.word() && !link_marked(self.word())
    }

    /// The iterator has lost the race for its entry: the entry is marked as
    /// deleted, and the cell behind the iterator no longer holds the link to
    /// it, so somebody else has unlinked it or is about to.
    pub open spec fn loses<T>(&self, list: &List<T>) -> bool {
        &&& link_target(self.word()) != 0
        &&& list.node(link_target(self.word()) - 1).is_deleted()
        &&& !link_marked(self.word())
        &&& list.cell(self.behind()) != self.word()
    }

    /// An iterator that stands at a position of the list fits it and is in
    /// step with it.
    pub proof fn lemma_in_step<T>(&self, list: &List<T>)
        requires
            self.wf(list),
        ensures
            self.fits(list),
            self.in_step(list),
            !self.loses(list),
    {
        let chain = list.chain@;
        let pos = self.pos@;
        assert(list.head % 2 == 0);
        if pos > 0 {
            assert(0 <= chain[pos - 1] < list.nodes@.len());
        }
        if pos < chain.len() {
            assert(0 <= chain[pos] < list.nodes@.len());
        }
    }

    /// Moves to the next entry that is not marked as deleted and returns its
    /// slot, or returns `None` at the end of the list.
    ///
    /// An iterator that is in step with the list walks on: every marked
    /// entry on the way is unlinked, the `next` word of its predecessor
    /// being swung to its successor.
    ///
    /// An iterator is out of step when the cell behind it no longer holds
    /// its link, because the list was changed since it moved last. If its
    /// entry is marked as deleted, it cannot swing that cell: the race to
    /// unlink the entry is lost. The iterator takes the word of the cell as
    /// its new link, touches nothing and returns `LostRace`, once; the next
    /// call goes on from there. If its own link is marked, the predecessor
    /// is deleted as well, and the iterator starts again from the head. If
    /// its entry is not marked, it returns it and is in step again.
    #[verifier::rlimit(80)]
    pub fn next<T>(&mut self, list: &mut List<T>, guard: &Guard) -> (r: Option<
        Result<usize, IterError>,
    >)
        requires
            old(list).wf(),
            old(self).fits(old(list)),
        ensures
            final(list).wf(),
            final(self).fits(final(list)),
            final(list).slots() == old(list).slots(),
            forall|s: int|
                0 <= s < old(list).slots()
                    ==> (#[trigger] final(list).node(s)).payload() == old(list).node(s).payload()
                        && final(list).node(s).is_deleted() == old(list).node(
                    s,
                ).is_deleted(),
            forall|s: int| final(list).order().contains(s) ==> old(list).order().contains(s),
            forall|s: int|
                old(list).order().contains(s) && !old(list).node(s).is_deleted()
                    ==> final(list).order().contains(s),
            // The race is lost.
            old(self).loses(old(list)) <==> r == Some(Err::<usize, IterError>(IterError::LostRace)),
            old(self).loses(old(list)) ==> ({
                &&& *final(list) == *old(list)
                &&& final(self).word() == old(list).cell(old(self).behind())
                &&& final(self).behind() == old(self).behind()
            }),
            // Out of step otherwise.
            !old(self).in_step(old(list)) && link_target(old(self).word()) == 0 ==> ({
                &&& r is None
                &&& *final(list) == *old(list)
                &&& *final(self) == *old(self)
            }),
            !old(self).in_step(old(list))
                && link_target(old(self).word()) != 0
                && !old(list).node(link_target(old(self).word()) - 1).is_deleted()
                ==> ({
                &&& r == Some(Ok::<usize, IterError>((link_target(old(self).word()) - 1) as usize))
                &&& *final(list) == *old(list)
                &&& final(self).wf(final(list))
                &&& final(self).behind() == link_target(old(self).word())
                &&& final(self).word() == old(list).node(link_target(old(self).word()) - 1).link()
            }),
            !old(self).in_step(old(list))
                && link_target(old(self).word()) != 0
                && old(list).node(link_target(old(self).word()) - 1).is_deleted()
                && link_marked(
                old(self).word(),
            ) ==> ({
                &&& final(self).wf(final(list))
                &&& final(list).walked(old(list), 0, guard.protected(), r)
            }),
            // In step.
            r matches Some(Ok(_)) ==> final(self).wf(final(list)),
            old(self).in_step(old(list)) ==> ({
                &&& final(self).wf(final(list))
                &&& final(list).walked(
                    old(list),
                    old(self).standing(old(list)),
                    guard.protected(),
                    r,
                )
                &&& r is Some ==> final(self).position() == old(self).standing(old(list)) + 1
                &&& r is None ==> final(self).position() == old(self).standing(old(list))
            }),
    {
        let cell = list.load_link(self.pred);
        proof {
            lemma_link_bits(self.curr);
            lemma_link_bits(cell);
            list.lemma_order_in_arena();
            if self.wf(list) {
                self.lemma_in_step(list);
            }
        }
        if cell == self.curr && self.curr & 1 == 0 {
            // In step.
            proof {
                if !self.wf(list) {
                    let found = list.lemma_stands(self.pred, self.curr);
                    assert(list.stands_at(self.pred, self.curr, found));
                    let pos = self.standing(list);
                    self.pos = Ghost(pos);
                }
            }
            return self.walk(list, guard);
        }
        if self.curr / 2 == 0 {
            return None;
        }
        let c = self.curr / 2 - 1;
        let succ = list.nodes[c].next;
        proof {
            lemma_link_bits(succ);
        }
        if succ & 1 == 0 {
            // The entry is not deleted: it is linked, and the iterator is
            // in step again behind it.
            self.pred = c + 1;
            self.curr = succ;
            proof {
                let pos = list.lemma_stands(self.pred, self.curr);
                self.pos = Ghost(pos);
                list.lemma_unmarked_is_linked(c as int);
            }
            return Some(Ok(c));
        }
        if self.curr & 1 == 1 {
            // The predecessor is deleted as well: start again from the head.
            self.pred = 0;
            self.curr = list.head;
            proof {
                self.pos = Ghost(0);
                lemma_link_bits(list.head);
            }
            return self.walk(list, guard);
        }
        // The race to unlink the entry was lost to another iterator.
        proof {
            list.lemma_cell_fits(self.pred);
        }
        self.curr = cell;
        Some(Err(IterError::LostRace))
    }

    /// Walks on from an iterator that is in step with the list: moves to the
    /// next entry that is not marked as deleted and returns its slot, or
    /// returns `None` at the end of the list.
    ///
    /// Every marked entry on the way is unlinked: the `next` word of its
    /// predecessor is swung to its successor by a compare-and-set. An
    /// iterator that is in step stays so while it walks, because the list
    /// has one owner, so none of these can fail.
    #[verifier::rlimit(80)]
    fn walk<T>(&mut self, list: &mut List<T>, guard: &Guard) -> (r: Option<
        Result<usize, IterError>,
    >)
        requires
            old(self).wf(old(list)),
        ensures
            final(self).wf(final(list)),
            !(r matches Some(Err(_))),
            final(list).slots() == old(list).slots(),
            forall|s: int|
                0 <= s < old(list).slots()
                    ==> (#[trigger] final(list).node(s)).payload() == old(list).node(s).payload()
                        && final(list).node(s).is_deleted() == old(list).node(
                    s,
                ).is_deleted(),
            final(list).order() == old(list).order().subrange(0, old(self).position())
                + old(list).order().subrange(
                old(list).first_unmarked(old(self).position()),
                old(list).order().len() as int,
            ),
            forall|s: int| final(list).order().contains(s) ==> old(list).order().contains(s),
            forall|s: int|
                old(list).order().contains(s) && !old(list).node(s).is_deleted()
                    ==> final(list).order().contains(s),
            guard.protected()
                ==> final(list).reusable() == old(list).reusable()
                    && final(list).parked() == old(list).parked() + List::<T>::as_slots(
                old(list).order().subrange(
                    old(self).position(),
                    old(list).first_unmarked(old(self).position()),
                ),
            ),
            !guard.protected()
                ==> final(list).parked() == old(list).parked()
                    && final(list).reusable() == old(list).reusable() + List::<T>::as_slots(
                old(list).order().subrange(
                    old(self).position(),
                    old(list).first_unmarked(old(self).position()),
                ),
            ),
            old(list).first_unmarked(old(self).position()) < old(list).order().len() ==> r == Some(
                Ok::<usize, IterError>(
                    old(list).order()[old(list).first_unmarked(old(self).position())] as usize,
                ),
            ) && final(self).position() == old(self).position() + 1,
            old(list).first_unmarked(old(self).position()) >= old(list).order().len() ==> r is None
                && final(self).position() == old(self).position(),
    {
        let ghost pos = self.pos@;
        let ghost ord = list.chain@;
        let ghost mut i = pos;
        proof {
            assert(list.chain@ =~= ord.subrange(0, pos) + ord.subrange(i, ord.len() as int));
            assert(list.retired@ =~= list.retired@ + List::<T>::as_slots(ord.subrange(pos, i)));
            assert(list.free@ =~= list.free@ + List::<T>::as_slots(ord.subrange(pos, i)));
        }
        while self.curr != 0
            invariant
                old(self).wf(old(list)),
                pos == old(self).pos@,
                ord == old(list).chain@,
                self.wf(list),
                self.pos@ == pos,
                pos <= i <= ord.len(),
                list.chain@ == ord.subrange(0, pos) + ord.subrange(i, ord.len() as int),
                list.nodes@.len() == old(list).nodes@.len(),
                forall|s: int|
                    0 <= s < list.nodes@.len()
                        ==> (#[trigger] list.nodes@[s]).data == old(list).nodes@[s].data
                            && link_marked(list.nodes@[s].next) == link_marked(
                        old(list).nodes@[s].next,
                    ),
                old(list).first_unmarked(pos) == old(list).first_unmarked(i),
                guard.protected()
                    ==> list.free@ == old(list).free@
                        && list.retired@ == old(list).retired@
                            + List::<T>::as_slots(ord.subrange(pos, i)),
                !guard.protected()
                    ==> list.retired@ == old(list).retired@
                        && list.free@ == old(list).free@
                            + List::<T>::as_slots(ord.subrange(pos, i)),
            decreases ord.len() - i,
        {
            let ghost chain = list.chain@;
            assert(chain.len() == pos + ord.len() - i);
            assert(pos < chain.len());
            assert(chain[pos] == ord[i]);
            let c = self.curr / 2 - 1;
            assert(c == chain[pos]);
            let succ = list.nodes[c].next;
            proof {
                lemma_link_bits(succ);
            }
            if succ & 1 == 1 {
                // This entry was removed. Unlink it from the list.
                let succ = succ & !1;
                let ghost pool = list.retired@ + list.free@;
                proof {
                    assert(pool.no_duplicates());
                    assert forall|k: int| 0 <= k < pool.len() implies (#[trigger] pool[k])
                        < list.nodes@.len() && !chain.contains(pool[k] as int) by {}
                }
                let ghost before = *list;
                match list.cas_link(self.pred, self.curr, succ) {
                    Ok(_) => {
                        let ghost parked = list.retired@;
                        let ghost reusable = list.free@;
                        // The entry has left the list. Under a pin its slot
                        // waits to be reclaimed; without one it is free at
                        // once.
                        if guard.is_protected() {
                            list.retired.push(c);
                        } else {
                            list.free.push(c);
                        }
                        self.curr = succ;
                        proof {
                            let after = chain.remove(pos);
                            list.chain = Ghost(after);
                            let grown = list.retired@ + list.free@;
                            let at = if guard.protected() {
                                parked.len() as int
                            } else {
                                pool.len() as int
                            };
                            assert(!pool.contains(c)) by {
                                if pool.contains(c) {
                                    let k = choose|k: int| 0 <= k < pool.len() && pool[k] == c;
                                    assert(chain.contains(pool[k] as int));
                                }
                            }
                            assert(grown =~= pool.insert(at, c));
                            lemma_pool_grows(pool, at, c);
                            assert forall|k: int| 0 <= k < grown.len() implies (
                            #[trigger] grown[k]) < list.nodes@.len() && !after.contains(
                                grown[k] as int,
                            ) by {
                                if after.contains(grown[k] as int) {
                                    let m = choose|m: int|
                                        0 <= m < after.len() && after[m] == grown[k] as int;
                                    let m2 = if m < pos { m } else { m + 1 };
                                    assert(after[m] == chain[m2]);
                                    assert(chain.contains(grown[k] as int));
                                    assert(m2 != pos);
                                }
                                if grown[k] != c {
                                    assert(pool.contains(grown[k]));
                                    let n = choose|n: int| 0 <= n < pool.len()
                                        && pool[n] == grown[k];
                                    assert(!chain.contains(pool[n] as int));
                                }
                            }
                            assert forall|s: int|
                                0 <= s < list.nodes@.len() implies #[trigger] List::<T>::placed(
                                after,
                                grown,
                                s,
                            ) by {
                                assert(List::<T>::placed(chain, pool, s));
                                if s == c {
                                    assert(grown[at] == c);
                                } else if chain.contains(s) {
                                    let m = choose|m: int| 0 <= m < chain.len() && chain[m] == s;
                                    let m2 = if m < pos { m } else { m - 1 };
                                    assert(after[m2] == s);
                                } else {
                                    let n = choose|n: int| 0 <= n < pool.len()
                                        && pool[n] == s as usize;
                                    let n2 = if n < at { n } else { n + 1 };
                                    assert(grown[n2] == pool[n]);
                                }
                            }
                            assert forall|k: int| 0 <= k < grown.len() implies link_marked(
                                list.nodes@[(#[trigger] grown[k]) as int].next,
                            ) && link_target(list.nodes@[grown[k] as int].next)
                                <= list.nodes@.len() by {
                                if grown[k] == c {
                                    assert(link_target(before.nodes@[chain[pos]].next)
                                        == List::<T>::link_to(chain, pos + 1));
                                    if pos + 1 < chain.len() {
                                        assert(chain[pos + 1] < list.nodes@.len());
                                    }
                                }
                                if grown[k] != c {
                                    assert(pool.contains(grown[k]));
                                    let n = choose|n: int| 0 <= n < pool.len()
                                        && pool[n] == grown[k];
                                    assert(link_marked(before.nodes@[pool[n] as int].next));
                                    if pos > 0 {
                                        assert(chain.contains(chain[pos - 1]));
                                    }
                                }
                            }
                            assert(after.len() == chain.len() - 1);
                            assert forall|k: int| 0 <= k < after.len() implies 0 <= #[trigger] after[k]
                                < list.nodes@.len() by {
                                if k < pos {
                                    assert(after[k] == chain[k]);
                                } else {
                                    assert(after[k] == chain[k + 1]);
                                }
                            }
                            assert(after.no_duplicates()) by {
                                assert forall|a: int, b: int|
                                    0 <= a < after.len()
                                        && 0 <= b < after.len()
                                        && a != b implies after[a] != after[b] by {
                                    let a2 = if a < pos { a } else { a + 1 };
                                    let b2 = if b < pos { b } else { b + 1 };
                                    assert(after[a] == chain[a2]);
                                    assert(after[b] == chain[b2]);
                                }
                            }
                            assert forall|k: int| 0 <= k < after.len() implies link_target(
                                #[trigger] list.nodes@[after[k]].next,
                            ) == List::<T>::link_to(after, k + 1) by {
                                if k < pos - 1 {
                                    assert(after[k] == chain[k]);
                                    assert(after[k + 1] == chain[k + 1]);
                                    assert(chain[k] != chain[pos - 1]);
                                } else if k == pos - 1 {
                                    assert(after[k] == chain[k]);
                                    if k + 1 < after.len() {
                                        assert(after[k + 1] == chain[k + 2]);
                                    }
                                } else {
                                    assert(after[k] == chain[k + 1]);
                                    if k + 1 < after.len() {
                                        assert(after[k + 1] == chain[k + 2]);
                                    }
                                    if pos > 0 {
                                        assert(chain[k + 1] != chain[pos - 1]);
                                    }
                                }
                            }
                            if pos < after.len() {
                                assert(after[pos] == chain[pos + 1]);
                            }
                            if pos > 0 {
                                assert(after[pos - 1] == chain[pos - 1]);
                            }
                            assert(old(list).node(ord[i]).is_deleted());
                            assert(List::<T>::as_slots(ord.subrange(pos, i + 1)) =~= List::<
                                T,
                            >::as_slots(ord.subrange(pos, i)).push(c));
                            i = i + 1;
                            assert(after =~= ord.subrange(0, pos) + ord.subrange(
                                i,
                                ord.len() as int,
                            ));
                            if guard.protected() {
                                assert(list.retired@ =~= old(list).retired@ + List::<T>::as_slots(
                                    ord.subrange(pos, i),
                                ));
                            } else {
                                assert(list.free@ =~= old(list).free@ + List::<T>::as_slots(
                                    ord.subrange(pos, i),
                                ));
                            }
                        }
                    },
                    Err(actual) => {
                        // The race to unlink the entry was lost to another
                        // iterator.
                        self.curr = actual;
                        return Some(Err(IterError::LostRace));
                    },
                }
            } else {
                // Move one step forward.
                self.pred = c + 1;
                self.curr = succ;
                proof {
                    self.pos = Ghost(pos + 1);
                    assert(!old(list).node(ord[i]).is_deleted());
                    assert(old(list).first_unmarked(i) == i);
                    assert(list.chain@ =~= ord.subrange(0, pos) + ord.subrange(
                        i,
                        ord.len() as int,
                    ));
                    old(list).lemma_skip_marked(pos, list.chain@);
                }
                return Some(Ok(c));
            }
        }
        // The end of the list.
        proof {
            assert(i == ord.len());
            assert(old(list).first_unmarked(i) == ord.len());
            old(list).lemma_skip_marked(pos, list.chain@);
        }
        None
    }
}

impl<T> List<T> {
    /// The slots of the entries among the first `upto` of the chain that
    /// are not marked as deleted, in the order of the chain.
    pub open spec fn kept(&self, upto: int) -> Seq<int>
        decreases upto,
    {
        if upto <= 0 {
            Seq::empty()
        } else if self.node(self.order()[upto - 1]).is_deleted() {
            self.kept(upto - 1)
        } else {
            self.kept(upto - 1).push(self.order()[upto - 1])
        }
    }

    /// The slots of the entries among the first `upto` of the chain that
    /// are marked as deleted, in the order of the chain.
    pub open spec fn dropped(&self, upto: int) -> Seq<usize>
        decreases upto,
    {
        if upto <= 0 {
            Seq::empty()
        } else if self.node(self.order()[upto - 1]).is_deleted() {
            self.dropped(upto - 1).push(self.order()[upto - 1] as usize)
        } else {
            self.dropped(upto - 1)
        }
    }

    /// Over a run of marked entries `kept` stays and `dropped` takes the
    /// run.
    pub proof fn lemma_marked_run(&self, from: int, to: int)
        requires
            0 <= from <= to <= self.order().len(),
            forall|k: int| from <= k < to ==> self.node(#[trigger] self.order()[k]).is_deleted(),
        ensures
            self.kept(to) == self.kept(from),
            self.dropped(to) == self.dropped(from) + Self::as_slots(
                self.order().subrange(from, to),
            ),
        decreases to - from,
    {
        if from < to {
            self.lemma_marked_run(from, to - 1);
            assert(self.node(self.order()[to - 1]).is_deleted());
            assert(Self::as_slots(self.order().subrange(from, to)) =~= Self::as_slots(
                self.order().subrange(from, to - 1),
            ).push(self.order()[to - 1] as usize));
            assert(self.dropped(to) =~= self.dropped(from) + Self::as_slots(
                self.order().subrange(from, to),
            ));
        } else {
            assert(self.dropped(to) =~= self.dropped(from) + Self::as_slots(
                self.order().subrange(from, to),
            ));
        }
    }

    /// Two lists whose chains end alike, with the same marks, have their
    /// first unmarked entry equally far on.
    pub proof fn lemma_first_unmarked_alike(&self, pos: int, other: &List<T>, at: int)
        requires
            0 <= pos <= self.order().len(),
            0 <= at <= other.order().len(),
            self.order().subrange(pos, self.order().len() as int) == other.order().subrange(
                at,
                other.order().len() as int,
            ),
            forall|k: int|
                pos <= k < self.order().len() ==> self.node(#[trigger] self.order()[k]).is_deleted()
                    == other.node(self.order()[k]).is_deleted(),
        ensures
            self.first_unmarked(pos) - pos == other.first_unmarked(at) - at,
        decreases self.order().len() - pos,
    {
        let mine = self.order().subrange(pos, self.order().len() as int);
        let theirs = other.order().subrange(at, other.order().len() as int);
        assert(mine.len() == theirs.len());
        if pos < self.order().len() {
            assert(mine[0] == theirs[0]);
            assert(self.order()[pos] == other.order()[at]);
            if self.node(self.order()[pos]).is_deleted() {
                assert(self.order().subrange(pos + 1, self.order().len() as int) =~= mine.skip(1));
                assert(other.order().subrange(at + 1, other.order().len() as int) =~= theirs.skip(
                    1,
                ));
                self.lemma_first_unmarked_alike(pos + 1, other, at + 1);
            }
        }
    }

    /// One step of a traversal, seen from the list `start` that the
    /// traversal began with: `self` is the list now, of which the first
    /// `upto` entries of `start` have been walked.
    pub proof fn lemma_step(&self, pos: int, start: &List<T>, upto: int)
        requires
            0 <= upto <= start.order().len(),
            pos == start.kept(upto).len(),
            self.order() == start.kept(upto) + start.order().subrange(
                upto,
                start.order().len() as int,
            ),
            forall|k: int|
                0 <= k < start.order().len() ==> self.node(#[trigger] start.order()[k]).is_deleted()
                    == start.node(start.order()[k]).is_deleted(),
        ensures
            upto <= start.first_unmarked(upto) <= start.order().len(),
            self.first_unmarked(pos) - pos == start.first_unmarked(upto) - upto,
            self.order().subrange(pos, self.first_unmarked(pos)) == start.order().subrange(
                upto,
                start.first_unmarked(upto),
            ),
            start.kept(start.first_unmarked(upto)) == start.kept(upto),
            start.dropped(start.first_unmarked(upto)) == start.dropped(upto) + Self::as_slots(
                start.order().subrange(upto, start.first_unmarked(upto)),
            ),
            start.first_unmarked(upto) < start.order().len() ==> self.order()[self.first_unmarked(
                pos,
            )] == start.order()[start.first_unmarked(upto)] && start.kept(
                start.first_unmarked(upto) + 1,
            ) == start.kept(upto).push(start.order()[start.first_unmarked(upto)]) && start.dropped(
                start.first_unmarked(upto) + 1,
            ) == start.dropped(start.first_unmarked(upto)),
            self.order().subrange(0, pos) + self.order().subrange(
                self.first_unmarked(pos),
                self.order().len() as int,
            ) == (if start.first_unmarked(upto) < start.order().len() {
                start.kept(start.first_unmarked(upto) + 1) + start.order().subrange(
                    start.first_unmarked(upto) + 1,
                    start.order().len() as int,
                )
            } else {
                start.kept(start.order().len() as int)
            }),
    {
        let ord = start.order();
        let mine = self.order();
        let jo = start.first_unmarked(upto);
        start.lemma_first_unmarked(upto);
        assert(mine.subrange(pos, mine.len() as int) =~= ord.subrange(upto, ord.len() as int));
        assert forall|k: int| pos <= k < mine.len() implies self.node(
            #[trigger] mine[k],
        ).is_deleted() == start.node(mine[k]).is_deleted() by {
            assert(mine[k] == ord[k - pos + upto]);
        }
        self.lemma_first_unmarked_alike(pos, start, upto);
        start.lemma_marked_run(upto, jo);
        let j = self.first_unmarked(pos);
        assert(mine.subrange(pos, j) =~= ord.subrange(upto, jo));
        if jo < ord.len() {
            assert(mine[j] == ord[jo]);
            assert(!start.node(ord[jo]).is_deleted());
            assert(mine.subrange(0, pos) + mine.subrange(j, mine.len() as int) =~= start.kept(
                jo + 1,
            ) + ord.subrange(jo + 1, ord.len() as int));
        } else {
            assert(mine.subrange(0, pos) + mine.subrange(j, mine.len() as int) =~= start.kept(
                ord.len() as int,
            ));
        }
    }

    /// Walks the whole list once and returns the slots of the entries that
    /// are not marked as deleted, head first.
    ///
    /// Every entry that is linked and not marked is returned exactly once,
    /// and no other. The entries that are marked are unlinked on the way, so
    /// the chain that is left is the chain of the entries returned. Under a
    /// pin the slots of the unlinked entries wait to be reclaimed; without
    /// one they are free at once.
    #[verifier::rlimit(80)]
    pub fn traverse(&mut self, guard: &Guard) -> (slots: Vec<usize>)
        requires
            old(self).wf(),
        ensures
            final(self).wf(),
            final(self).slots() == old(self).slots(),
            forall|s: int|
                0 <= s < old(self).slots()
                    ==> (#[trigger] final(self).node(s)).payload() == old(self).node(s).payload()
                        && final(self).node(s).is_deleted() == old(self).node(
                    s,
                ).is_deleted(),
            final(self).order() == old(self).kept(old(self).order().len() as int),
            slots@.len() == final(self).order().len(),
            forall|k: int| 0 <= k < slots@.len() ==> #[trigger] slots@[k] == final(self).order()[k],
            forall|s: int|
                final(self).order().contains(s) <==> old(self).order().contains(s)
                    && !old(self).node(s).is_deleted(),
            guard.protected()
                ==> final(self).reusable() == old(self).reusable()
                    && final(self).parked() == old(self).parked()
                        + old(self).dropped(old(self).order().len() as int),
            !guard.protected()
                ==> final(self).parked() == old(self).parked()
                    && final(self).reusable() == old(self).reusable() + old(self).dropped(
                old(self).order().len() as int,
            ),
    {
        let mut slots: Vec<usize> = Vec::new();
        let mut iter = self.iter(guard);
        let mut done = false;
        let ghost mut i = 0int;
        let ghost ord = self.order();
        proof {
            self.lemma_order_in_arena();
            assert(self.order() =~= self.kept(0) + ord.subrange(0, ord.len() as int));
            assert(self.parked() =~= self.parked() + self.dropped(0));
            assert(self.reusable() =~= self.reusable() + self.dropped(0));
        }
        while !done
            invariant
                old(self).wf(),
                ord == old(self).order(),
                iter.wf(self),
                self.wf(),
                self.slots() == old(self).slots(),
                forall|s: int|
                    0 <= s < old(self).slots()
                        ==> (#[trigger] self.node(s)).payload() == old(self).node(s).payload()
                            && self.node(s).is_deleted() == old(self).node(
                        s,
                    ).is_deleted(),
                forall|s: int| self.order().contains(s) ==> ord.contains(s),
                forall|s: int|
                    ord.contains(s) && !old(self).node(s).is_deleted() ==> self.order().contains(s),
                0 <= i <= ord.len(),
                self.order() == old(self).kept(i) + ord.subrange(i, ord.len() as int),
                iter.position() == old(self).kept(i).len(),
                guard.protected() ==> self.reusable() == old(self).reusable() && self.parked()
                    == old(self).parked() + old(self).dropped(i),
                !guard.protected() ==> self.parked() == old(self).parked() && self.reusable()
                    == old(self).reusable() + old(self).dropped(i),
                slots@.len() == iter.position(),
                forall|k: int| 0 <= k < slots@.len() ==> #[trigger] slots@[k] == self.order()[k],
                forall|k: int|
                    0 <= k < iter.position()
                        ==> !self.node(#[trigger] self.order()[k]).is_deleted(),
                done ==> i == ord.len(),
            decreases ord.len() - i + (if done { 0int } else { 1int }),
        {
            let ghost before = *self;
            let ghost pos = iter.position();
            let ghost jo = old(self).first_unmarked(i);
            proof {
                old(self).lemma_order_in_arena();
                before.lemma_step(pos, old(self), i);
            }
            let step = iter.next(self, guard);
            proof {
                iter.lemma_in_list(self);
            }
            match step {
                None => {
                    done = true;
                    proof {
                        i = jo;
                    }
                },
                Some(Err(_)) => {
                    // A list with one owner loses no race.
                    done = true;
                },
                Some(Ok(slot)) => {
                    proof {
                        i = jo + 1;
                    }
                    slots.push(slot);
                },
            }
        }
        proof {
            self.lemma_order_in_arena();
            assert(self.order() =~= old(self).kept(ord.len() as int));
            assert forall|s: int|
                self.order().contains(s) implies !old(self).node(s).is_deleted() by {
                let k = choose|k: int| 0 <= k < self.order().len() && self.order()[k] == s;
                assert(!self.node(self.order()[k]).is_deleted());
            }
        }
        slots
    }
}

} // verus!
