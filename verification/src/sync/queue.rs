//! A first-in first-out queue after Michael and Scott.
//!
//! The queue is a singly-linked list with a sentinel entry at the front. An
//! item is pushed by linking a new entry behind the last one and moving the
//! tail there. An item is popped by moving the head to the entry behind the
//! sentinel, which becomes the new sentinel and gives up its item.
//!
//! The entries live in an arena that the queue owns, and a link is the slot
//! of the entry it leads to. The slot of an entry that left the queue is used
//! again for a later one.
use vstd::prelude::*;
use crate::guard::Guard;

verus! {

/// An entry of the queue.
struct Node<T> {
    /// The item; `None` in the sentinel.
    data: Option<T>,
    /// The slot of the next entry.
    next: Option<usize>,
}

/// A queue of `T`. Its view is the sequence of its items, oldest first.
pub struct Queue<T> {
    /// The slot of the sentinel.
    head: usize,
    /// The slot of the last entry.
    tail: usize,
    /// The arena.
    nodes: Vec<Node<T>>,
    /// The slots that hold no entry of the queue and can be used again.
    free: Vec<usize>,
    /// The slots of the linked entries in order, the sentinel first.
    chain: Ghost<Seq<usize>>,
}

impl<T> View for Queue<T> {
    type V = Seq<T>;

    closed spec fn view(&self) -> Seq<T> {
        Seq::new(
            (self.chain@.len() - 1) as nat,
            |i: int| self.nodes@[self.chain@[i + 1] as int].data->Some_0,
        )
    }
}

impl<T> Queue<T> {
    /// The queue is well formed: the links lead from the sentinel through
    /// the entries, each once, to the tail; every entry behind the sentinel
    /// holds an item; no free slot is linked.
    pub closed spec fn wf(&self) -> bool {
        &&& self.chain@.len() >= 1
        &&& self.chain@.no_duplicates()
        &&& forall|i: int| 0 <= i < self.chain@.len()
            ==> 0 <= #[trigger] self.chain@[i] < self.nodes@.len()
        &&& self.head == self.chain@[0]
        &&& self.tail == self.chain@.last()
        &&& forall|i: int|
            0 <= i < self.chain@.len()
                ==> (#[trigger] self.nodes@[self.chain@[i] as int]).next == (if i
                + 1 < self.chain@.len() {
                Some(self.chain@[i + 1])
            } else {
                None
            })
        &&& forall|i: int| 1 <= i < self.chain@.len()
            ==> (#[trigger] self.nodes@[self.chain@[i] as int]).data is Some
        &&& self.free@.no_duplicates()
        &&& forall|k: int| 0 <= k < self.free@.len()
            ==> 0 <= #[trigger] self.free@[k] < self.nodes@.len()
        &&& forall|k: int, i: int|
            0 <= k < self.free@.len() && 0 <= i < self.chain@.len() ==> #[trigger] self.free@[k]
                != #[trigger] self.chain@[i]
    }

    /// Creates a new, empty queue: a sentinel and nothing behind it.
    pub fn new() -> (queue: Self)
        ensures
            queue.wf(),
            queue@ == Seq::<T>::empty(),
    {
        let mut nodes: Vec<Node<T>> = Vec::new();
        nodes.push(Node { data: None, next: None });
        let queue = Queue {
            head: 0,
            tail: 0,
            nodes: nodes,
            free: Vec::new(),
            chain: Ghost(Seq::<usize>::empty().push(0)),
        };
        assert(queue@ =~= Seq::<T>::empty());
        queue
    }

    /// Checks if this queue is empty.
    pub fn is_empty(&self) -> (empty: bool)
        requires
            self.wf(),
        ensures
            empty == (self@.len() == 0),
    {
        self.nodes[self.head].next.is_none()
    }

    /// Puts a new entry with the item `t` into the arena, linked to nothing,
    /// and returns its slot.
    fn new_node(&mut self, t: T) -> (slot: usize)
        requires
            old(self).wf(),
        ensures
            final(self).wf(),
            final(self).chain@ == old(self).chain@,
            final(self)@ == old(self)@,
            slot < final(self).nodes@.len(),
            !final(self).chain@.contains(slot),
            !final(self).free@.contains(slot),
            final(self).nodes@[slot as int].data == Some(t),
            final(self).nodes@[slot as int].next is None,
    {
        let node = Node { data: Some(t), next: None };
        let ghost chain = self.chain@;
        match self.free.pop() {
            Some(slot) => {
                assert(old(self).free@[old(self).free@.len() - 1] == slot);
                assert forall|i: int| 0 <= i < chain.len() implies chain[i] != slot by {}
                self.nodes[slot] = node;
                assert(self@ =~= old(self)@);
                slot
            },
            None => {
                let slot = self.nodes.len();
                self.nodes.push(node);
                assert(self@ =~= old(self)@);
                slot
            },
        }
    }

    /// Attempts to link the entry in the slot `new` behind the entry in the
    /// slot `onto`.
    ///
    /// If `onto` is not the last entry, the tail is moved forward and `new`
    /// comes back.
    fn push_internal(&mut self, onto: usize, new: usize, _guard: &Guard) -> (r: Result<(), usize>)
        requires
            old(self).wf(),
            onto == old(self).tail,
            new < old(self).nodes@.len(),
            !old(self).chain@.contains(new),
            !old(self).free@.contains(new),
            old(self).nodes@[new as int].data is Some,
            old(self).nodes@[new as int].next is None,
        ensures
            final(self).wf(),
            r is Ok,
            final(self)@ == old(self)@.push(old(self).nodes@[new as int].data->Some_0),
    {
        let ghost chain = self.chain@;
        let next = self.nodes[onto].next;
        match next {
            Some(next) => {
                // Not the last entry: help by moving the tail forward.
                if self.tail == onto {
                    self.tail = next;
                }
                Err(new)
            },
            None => {
                // The last entry: link `new` behind it, then move the tail.
                self.nodes[onto].next = Some(new);
                if self.tail == onto {
                    self.tail = new;
                }
                proof {
                    let after = chain.push(new);
                    self.chain = Ghost(after);
                    assert forall|i: int| 0 <= i < chain.len() implies chain[i] != new by {
                        assert(chain.contains(chain[i]));
                    }
                    assert forall|k: int| 0 <= k < self.free@.len() implies self.free@[k] != new by {
                        assert(self.free@.contains(self.free@[k]));
                    }
                    assert(after.no_duplicates());
                    assert forall|i: int| 0 <= i < after.len() implies (
                    #[trigger] self.nodes@[after[i] as int]).next == (if i + 1 < after.len() {
                        Some(after[i + 1])
                    } else {
                        None
                    }) by {
                        if i < chain.len() - 1 {
                            assert(after[i] == chain[i]);
                            assert(chain[i] != onto);
                        }
                    }
                    assert forall|i: int| 1 <= i < after.len() implies (
                    #[trigger] self.nodes@[after[i] as int]).data is Some by {
                        if i < chain.len() {
                            assert(after[i] == chain[i]);
                        }
                    }
                    assert(self@ =~= old(self)@.push(old(self).nodes@[new as int].data->Some_0)) by {
                        assert forall|i: int| 0 <= i < self@.len() implies self@[i]
                            == old(self)@.push(
                            old(self).nodes@[new as int].data->Some_0,
                        )[i] by {
                            if i + 1 < chain.len() {
                                assert(after[i + 1] == chain[i + 1]);
                            }
                        }
                    }
                }
                Ok(())
            },
        }
    }

    /// Adds `t` to the back of the queue.
    pub fn push(&mut self, t: T, guard: &Guard)
        requires
            old(self).wf(),
        ensures
            final(self).wf(),
            final(self)@ == old(self)@.push(t),
    {
        let mut new = self.new_node(t);
        loop
            invariant
                self.wf(),
                self@ == old(self)@,
                new < self.nodes@.len(),
                !self.chain@.contains(new),
                !self.free@.contains(new),
                self.nodes@[new as int].data == Some(t),
                self.nodes@[new as int].next is None,
            decreases 0int,
        {
            // Push onto the tail as it is now.
            let tail = self.tail;
            match self.push_internal(tail, new, guard) {
                Ok(_) => {
                    return ;
                },
                Err(temp) => {
                    new = temp;
                },
            }
        }
    }

    /// Attempts to take the first item. `Ok(None)` if the queue is empty.
    /// With one owner the race for the head cannot be lost, so the result is
    /// never `Err`.
    fn pop_internal(&mut self, _guard: &Guard) -> (r: Result<Option<T>, ()>)
        requires
            old(self).wf(),
        ensures
            final(self).wf(),
            r is Ok,
            old(self)@.len() == 0 ==> r->Ok_0 is None && final(self)@ == old(self)@,
            old(self)@.len() > 0
                ==> r->Ok_0 == Some(old(self)@[0]) && final(self)@ == old(self)@.skip(1),
    {
        let ghost chain = self.chain@;
        let head = self.head;
        let next = self.nodes[head].next;
        match next {
            None => Ok(None),
            Some(n) => {
                assert(self.nodes@[chain[0] as int].next == Some(n));
                assert(chain.len() > 1);
                assert(0 <= chain[1] < self.nodes@.len());
                assert(n == chain[1]);
                assert(old(self)@[0] == self.nodes@[n as int].data->Some_0);
                if self.head == head {
                    self.head = n;
                    // The old sentinel has left the queue.
                    self.free.push(head);
                    let item = self.nodes[n].data.take();
                    proof {
                        let after = chain.skip(1);
                        self.chain = Ghost(after);
                        assert forall|i: int| 0 <= i < after.len() implies after[i]
                            == chain[i + 1] by {}
                        assert(after.no_duplicates());
                        assert forall|i: int| 0 <= i < after.len() implies 0 <= #[trigger] after[i]
                            < self.nodes@.len() by {
                            assert(after[i] == chain[i + 1]);
                        }
                        assert forall|i: int| 0 <= i < after.len() implies (
                        #[trigger] self.nodes@[after[i] as int]).next == (if i + 1 < after.len() {
                            Some(after[i + 1])
                        } else {
                            None
                        }) by {
                            assert(after[i] == chain[i + 1]);
                            assert(self.nodes@[chain[i + 1] as int].next == old(self).nodes@[chain[i + 1] as int].next);
                        }
                        assert forall|i: int| 1 <= i < after.len() implies (
                        #[trigger] self.nodes@[after[i] as int]).data is Some by {
                            assert(after[i] == chain[i + 1]);
                            assert(chain[i + 1] != n);
                            assert(self.nodes@[chain[i + 1] as int] == old(self).nodes@[chain[i + 1] as int]);
                        }
                        assert(self.free@.no_duplicates()) by {
                            assert forall|a: int, b: int|
                                0 <= a < self.free@.len() && 0 <= b < self.free@.len() && a
                                    != b implies self.free@[a] != self.free@[b] by {
                                if a == self.free@.len() - 1 {
                                    assert(self.free@[b] == old(self).free@[b]);
                                    assert(chain[0] == head);
                                } else if b == self.free@.len() - 1 {
                                    assert(self.free@[a] == old(self).free@[a]);
                                    assert(chain[0] == head);
                                } else {
                                    assert(self.free@[a] == old(self).free@[a]);
                                    assert(self.free@[b] == old(self).free@[b]);
                                }
                            }
                        }
                        assert forall|k: int, i: int|
                            0 <= k < self.free@.len()
                                && 0 <= i < after.len() implies #[trigger] self.free@[k]
                            != #[trigger] after[i] by {
                            assert(after[i] == chain[i + 1]);
                            if k == self.free@.len() - 1 {
                                assert(self.free@[k] == chain[0]);
                            } else {
                                assert(self.free@[k] == old(self).free@[k]);
                            }
                        }
                        assert forall|k: int| 0 <= k < self.free@.len() implies 0 <= #[trigger] self.free@[k]
                            < self.nodes@.len() by {
                            if k < self.free@.len() - 1 {
                                assert(self.free@[k] == old(self).free@[k]);
                            }
                        }
                        assert(self@ =~= old(self)@.skip(1)) by {
                            assert forall|i: int| 0 <= i < self@.len() implies self@[i]
                                == old(self)@.skip(1)[i] by {
                                assert(after[i + 1] == chain[i + 2]);
                                assert(chain[i + 2] != n);
                            }
                        }
                    }
                    Ok(item)
                } else {
                    Err(())
                }
            },
        }
    }

    /// Attempts to dequeue from the front. Returns `None` if the queue is
    /// empty.
    pub fn try_pop(&mut self, guard: &Guard) -> (r: Option<T>)
        requires
            old(self).wf(),
        ensures
            final(self).wf(),
            old(self)@.len() == 0 ==> r is None && final(self)@ == old(self)@,
            old(self)@.len() > 0 ==> r == Some(old(self)@[0]) && final(self)@ == old(self)@.skip(1),
    {
        loop
            invariant
                self.wf(),
                self@ == old(self)@,
            decreases 0int,
        {
            if let Ok(r) = self.pop_internal(guard) {
                return r;
            }
        }
    }

    /// Attempts to dequeue from the front if the first item meets
    /// `condition`.
    ///
    /// Returns the first item if, and only if, the condition holds of it.
    /// Otherwise the queue is left as it was.
    pub fn try_pop_if<F: Fn(&T) -> bool>(&mut self, condition: F, guard: &Guard) -> (r: Option<T>)
        requires
            old(self).wf(),
            old(self)@.len() > 0 ==> condition.requires((&old(self)@[0],)),
        ensures
            final(self).wf(),
            r is Some ==> old(self)@.len() > 0 && r == Some(old(self)@[0]) && condition.ensures(
                (&old(self)@[0],),
                true,
            ) && final(self)@ == old(self)@.skip(1),
            r is None ==> final(self)@ == old(self)@ && (old(self)@.len() == 0
                || condition.ensures((&old(self)@[0],), false)),
    {
        let head = self.head;
        let next = self.nodes[head].next;
        match next {
            None => None,
            Some(n) => {
                assert(self.nodes@[self.chain@[0] as int].next == Some(n));
                assert(self.chain@.len() > 1);
                assert(0 <= self.chain@[1] < self.nodes@.len());
                assert(n == self.chain@[1]);
                assert(old(self)@[0] == self.nodes@[n as int].data->Some_0);
                let wanted = match &self.nodes[n].data {
                    Some(item) => condition(item),
                    None => false,
                };
                if wanted {
                    self.try_pop(guard)
                } else {
                    None
                }
            },
        }
    }
}

} // verus!
