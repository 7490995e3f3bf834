use crossbeam_utils::thread::scope;
use epoch_reclaim::collector::Collector;
use epoch_reclaim::guard::unprotected;
use epoch_reclaim::sync::queue::Queue;
use std::sync::Mutex;

/// The queue has one owner at a time, so threads take turns behind a lock.
struct SharedQueue<T> {
    queue: Mutex<Queue<T>>,
}

impl<T> SharedQueue<T> {
    fn new() -> SharedQueue<T> {
        SharedQueue { queue: Mutex::new(Queue::new()) }
    }

    fn push(&self, t: T) {
        self.queue.lock().unwrap().push(t, &unprotected())
    }

    fn is_empty(&self) -> bool {
        self.queue.lock().unwrap().is_empty()
    }

    fn try_pop(&self) -> Option<T> {
        self.queue.lock().unwrap().try_pop(&unprotected())
    }

    fn pop(&self) -> T {
        loop {
            match self.try_pop() {
                None => continue,
                Some(t) => return t,
            }
        }
    }
}

const CONC_COUNT: i64 = 1000000;

#[test]
fn push_try_pop_many_spsc() {
    let q: SharedQueue<i64> = SharedQueue::new();
    assert!(q.is_empty());

    scope(|scope| {
        scope.spawn(|_| {
            let mut next = 0;

            while next < CONC_COUNT {
                if let Some(elem) = q.try_pop() {
                    assert_eq!(elem, next);
                    next += 1;
                }
            }
        });

        for i in 0..CONC_COUNT {
            q.push(i)
        }
    })
    .unwrap();
}

#[test]
fn push_try_pop_many_spmc() {
    fn recv(_t: i32, q: &SharedQueue<i64>) {
        let mut cur = -1;
        for _i in 0..CONC_COUNT {
            if let Some(elem) = q.try_pop() {
                assert!(elem > cur);
                cur = elem;

                if cur == CONC_COUNT - 1 {
                    break;
                }
            }
        }
    }

    let q: SharedQueue<i64> = SharedQueue::new();
    assert!(q.is_empty());
    let qr = &q;
    scope(|scope| {
        for i in 0..3 {
            scope.spawn(move |_| recv(i, qr));
        }

        scope.spawn(|_| {
            for i in 0..CONC_COUNT {
                q.push(i);
            }
        });
    })
    .unwrap();
}

#[test]
fn push_try_pop_many_mpmc() {
    enum LR {
        Left(i64),
        Right(i64),
    }

    let q: SharedQueue<LR> = SharedQueue::new();
    assert!(q.is_empty());

    scope(|scope| {
        for _t in 0..2 {
            scope.spawn(|_| {
                for i in CONC_COUNT - 1..CONC_COUNT {
                    q.push(LR::Left(i))
                }
            });
            scope.spawn(|_| {
                for i in CONC_COUNT - 1..CONC_COUNT {
                    q.push(LR::Right(i))
                }
            });
            scope.spawn(|_| {
                let mut vl = vec![];
                let mut vr = vec![];
                for _i in 0..CONC_COUNT {
                    match q.try_pop() {
                        Some(LR::Left(x)) => vl.push(x),
                        Some(LR::Right(x)) => vr.push(x),
                        _ => {}
                    }
                }

                let mut vl2 = vl.clone();
                let mut vr2 = vr.clone();
                vl2.sort();
                vr2.sort();

                assert_eq!(vl, vl2);
                assert_eq!(vr, vr2);
            });
        }
    })
    .unwrap();
}

#[test]
fn push_pop_many_spsc() {
    let q: SharedQueue<i64> = SharedQueue::new();

    scope(|scope| {
        scope.spawn(|_| {
            let mut next = 0;
            while next < CONC_COUNT {
                assert_eq!(q.pop(), next);
                next += 1;
            }
        });

        for i in 0..CONC_COUNT {
            q.push(i)
        }
    })
    .unwrap();
    assert!(q.is_empty());
}

#[test]
fn global_pin_holds_advance() {
    let collector = Mutex::new(Collector::new());
    scope(|scope| {
        for _ in 0..8 {
            scope.spawn(|_| {
                let mut handle = collector.lock().unwrap().handle();
                for _ in 0..500_000 {
                    let mut collector = collector.lock().unwrap();
                    let guard = handle.pin(&mut collector);
                    let before = collector.epoch();
                    collector.collect();
                    let after = collector.epoch();
                    assert!(after.wrapping_sub(before) <= 2);
                    guard.unpin(&mut handle, &mut collector);
                }
                handle.unregister(&mut collector.lock().unwrap());
            });
        }
    })
    .unwrap();
}
