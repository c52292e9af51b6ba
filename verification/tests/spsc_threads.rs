use coordkit::spsc::channel;
use std::collections::HashSet;
use std::ops::Range;
use std::sync::Arc;
use std::sync::Mutex;
use std::time::Duration;
use tokio::runtime::Builder;
use tokio::runtime::Runtime;
use tokio::task::JoinHandle;

const ELEMS: Range<i32> = 0..1000;
const ITERS: usize = 50;

/// Threads to run the halves of a channel on.
struct Threads {
    runtime: Runtime,
}

impl Threads {
    fn new() -> Threads {
        let runtime = Builder::new_current_thread().enable_time().build().unwrap();
        Threads { runtime }
    }

    fn spawn<R: Send + 'static>(&self, f: impl FnOnce() -> R + Send + 'static) -> JoinHandle<R> {
        self.runtime.spawn_blocking(f)
    }

    fn join<R: Send + 'static>(&self, handle: JoinHandle<R>) -> R {
        self.runtime.block_on(handle).unwrap()
    }

    fn sleep(&self, time: Duration) {
        self.runtime.block_on(async move { tokio::time::sleep(time).await });
    }
}

#[test]
fn elements_arrive_correctly_ordered() {
    let threads = Threads::new();
    let (px, cx) = channel(64);
    threads.spawn(move || {
        for i in ELEMS {
            px.send(i).unwrap();
        }
    });
    for i in ELEMS {
        assert_eq!(i, cx.recv().unwrap());
    }
    assert!(cx.recv().is_err());
}

#[test]
fn no_elements_lost() {
    let threads = Threads::new();
    for _ in 0..ITERS {
        let (px, cx) = channel(32);
        let handle = threads.spawn(move || {
            let mut count = 0;
            while cx.recv().is_ok() {
                count += 1;
            }
            count
        });
        threads.spawn(move || {
            for i in ELEMS {
                px.send(i).unwrap();
            }
        });
        assert_eq!(threads.join(handle), ELEMS.len());
    }
}

/// Notes when it is made and when it is dropped.
#[derive(Debug)]
struct Elem(i32, Arc<Mutex<HashSet<i32>>>);

impl Elem {
    fn new(key: i32, seen: &Arc<Mutex<HashSet<i32>>>) -> Elem {
        assert!(seen.lock().unwrap().insert(key), "double initialisation of element {}", key);
        Elem(key, Arc::clone(seen))
    }
}

impl Drop for Elem {
    fn drop(&mut self) {
        assert!(self.1.lock().unwrap().remove(&self.0), "double free of element {}", self.0);
    }
}

#[test]
fn unused_elements_are_dropped() {
    let threads = Threads::new();
    let seen: Arc<Mutex<HashSet<i32>>> = Arc::new(Mutex::new(HashSet::new()));
    for i in 0..ITERS {
        let (px, cx) = channel(8);
        let made = Arc::clone(&seen);
        let handle = threads.spawn(move || {
            for i in 0.. {
                if px.send(Elem::new(i, &made)).is_err() {
                    return;
                }
            }
        });
        for _ in 0..i {
            cx.recv().unwrap();
        }
        drop(cx);
        threads.join(handle);
        let map = seen.lock().unwrap();
        assert!(map.is_empty(), "elements left: {:?}", *map);
    }
}

#[test]
fn capacity_one() {
    let threads = Threads::new();
    let (px, cx) = channel(1);
    let handle = threads.spawn(move || {
        for i in 0..500 {
            px.send(i).unwrap();
        }
    });
    for i in 0..500 {
        assert_eq!(i, cx.recv().unwrap());
    }
    threads.join(handle);
}

#[test]
fn close_unblocks_spinning_consumer() {
    let threads = Threads::new();
    let (px, cx) = channel::<i32>(4);
    let handle = threads.spawn(move || cx.recv());

    threads.sleep(Duration::from_millis(50));
    drop(px);
    assert!(threads.join(handle).is_err());
}

#[test]
fn close_unblocks_spinning_producer() {
    let threads = Threads::new();
    let (px, cx) = channel(2);
    let handle = threads.spawn(move || {
        for i in 0.. {
            if px.send(i).is_err() {
                return i;
            }
        }
        unreachable!()
    });

    threads.sleep(Duration::from_millis(50));
    drop(cx);
    let last = threads.join(handle);
    assert!(last > 0);
}

#[test]
fn recv_drains_before_err() {
    let threads = Threads::new();
    let n = ELEMS.len();
    let (px, cx) = channel(32);
    threads.spawn(move || {
        for i in ELEMS {
            px.send(i).unwrap();
        }
        // producer drops here and the channel closes
    });
    let mut received = Vec::with_capacity(n);
    loop {
        match cx.recv() {
            Ok(v) => received.push(v),
            Err(_) => break,
        }
    }
    assert_eq!(received.len(), n, "some elements lost on close");
    for (i, &v) in received.iter().enumerate() {
        assert_eq!(v, i as i32, "wrong element at position {}", i);
    }
}

#[test]
fn zero_sized_type() {
    let threads = Threads::new();
    let (px, cx) = channel::<()>(8);
    let n = 500;
    let handle = threads.spawn(move || {
        for _ in 0..n {
            px.send(()).unwrap();
        }
    });
    for _ in 0..n {
        cx.recv().unwrap();
    }
    threads.join(handle);
    assert!(cx.recv().is_err());
}

#[derive(Debug, PartialEq)]
struct Wide(u64, u64, u64);

#[test]
fn wide_type_across_threads() {
    let threads = Threads::new();
    let (px, cx) = channel(16);
    let handle = threads.spawn(move || {
        for i in ELEMS.map(|i| i as u64) {
            px.send(Wide(i, i + 1, i + 2)).unwrap();
        }
    });
    for i in ELEMS.map(|i| i as u64) {
        assert_eq!(cx.recv().unwrap(), Wide(i, i + 1, i + 2));
    }
    threads.join(handle);
}
