use epoch_reclaim::guard::unprotected;
use epoch_reclaim::sync::queue::Queue;

struct MsQueue<T> {
    queue: Queue<T>,
}

impl<T> MsQueue<T> {
    fn new() -> MsQueue<T> {
        MsQueue { queue: Queue::new() }
    }

    fn push(&mut self, t: T) {
        self.queue.push(t, &unprotected())
    }

    fn is_empty(&self) -> bool {
        self.queue.is_empty()
    }

    fn try_pop(&mut self) -> Option<T> {
        self.queue.try_pop(&unprotected())
    }

    fn pop(&mut self) -> T {
        loop {
            match self.try_pop() {
                None => continue,
                Some(t) => return t,
            }
        }
    }
}

#[test]
fn push_try_pop_1() {
    let mut q: MsQueue<i64> = MsQueue::new();
    assert!(q.is_empty());
    q.push(37);
    assert!(!q.is_empty());
    assert_eq!(q.try_pop(), Some(37));
    assert!(q.is_empty());
}

#[test]
fn push_try_pop_2() {
    let mut q: MsQueue<i64> = MsQueue::new();
    assert!(q.is_empty());
    q.push(37);
    q.push(48);
    assert_eq!(q.try_pop(), Some(37));
    assert!(!q.is_empty());
    assert_eq!(q.try_pop(), Some(48));
    assert!(q.is_empty());
}

#[test]
fn push_try_pop_many_seq() {
    let mut q: MsQueue<i64> = MsQueue::new();
    assert!(q.is_empty());
    for i in 0..200 {
        q.push(i)
    }
    assert!(!q.is_empty());
    for i in 0..200 {
        assert_eq!(q.try_pop(), Some(i));
    }
    assert!(q.is_empty());
}

#[test]
fn push_pop_1() {
    let mut q: MsQueue<i64> = MsQueue::new();
    assert!(q.is_empty());
    q.push(37);
    assert!(!q.is_empty());
    assert_eq!(q.pop(), 37);
    assert!(q.is_empty());
}

#[test]
fn push_pop_2() {
    let mut q: MsQueue<i64> = MsQueue::new();
    q.push(37);
    q.push(48);
    assert_eq!(q.pop(), 37);
    assert_eq!(q.pop(), 48);
}

#[test]
fn push_pop_many_seq() {
    let mut q: MsQueue<i64> = MsQueue::new();
    assert!(q.is_empty());
    for i in 0..200 {
        q.push(i)
    }
    assert!(!q.is_empty());
    for i in 0..200 {
        assert_eq!(q.pop(), i);
    }
    assert!(q.is_empty());
}

#[test]
fn is_empty_dont_pop() {
    let mut q: MsQueue<i64> = MsQueue::new();
    q.push(20);
    q.push(20);
    assert!(!q.is_empty());
    assert!(!q.is_empty());
    assert!(q.try_pop().is_some());
}

#[test]
fn try_pop_from_empty_queue() {
    let mut q: Queue<i64> = Queue::new();
    let guard = unprotected();
    assert_eq!(q.try_pop(&guard), None);
    assert_eq!(q.try_pop_if(|_| true, &guard), None);
    assert!(q.is_empty());
}

#[test]
fn try_pop_if_takes_the_head_only_if_it_matches() {
    let mut q: Queue<i64> = Queue::new();
    let guard = unprotected();
    q.push(1, &guard);
    q.push(2, &guard);
    q.push(3, &guard);
    // The head does not match: nothing leaves, even though a later item
    // would match.
    assert_eq!(q.try_pop_if(|x| *x == 2, &guard), None);
    assert_eq!(q.try_pop_if(|x| *x > 1, &guard), None);
    assert!(!q.is_empty());
    // The head matches.
    assert_eq!(q.try_pop_if(|x| *x == 1, &guard), Some(1));
    assert_eq!(q.try_pop_if(|x| *x == 2, &guard), Some(2));
    assert_eq!(q.try_pop_if(|x| *x == 2, &guard), None);
    assert_eq!(q.try_pop(&guard), Some(3));
    assert!(q.is_empty());
}

#[test]
fn queue_reuses_its_slots() {
    let mut q: Queue<usize> = Queue::new();
    let guard = unprotected();
    for round in 0..1000usize {
        q.push(round, &guard);
        q.push(round + 1, &guard);
        assert_eq!(q.try_pop(&guard), Some(round));
        assert_eq!(q.try_pop(&guard), Some(round + 1));
        assert!(q.is_empty());
    }
}
