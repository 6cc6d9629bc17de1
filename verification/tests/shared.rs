use std::sync::atomic::{AtomicUsize, Ordering};
use std::sync::Arc;
use std::task::{Wake, Waker};

use tonlibjson_client::shared::{
    Admission, Load, Poll, Service, SharedLayer, SharedService, Submission, Roused,
};

/// A capability that counts what is asked of it.
#[derive(Debug, PartialEq, Eq)]
struct Counter {
    polled: usize,
    called: usize,
    ready: bool,
    broken: bool,
}

impl Counter {
    fn new() -> Counter {
        Counter {
            polled: 0,
            called: 0,
            ready: true,
            broken: false,
        }
    }
}

impl Service<u32> for Counter {
    type Response = u32;
    type Error = String;
    type Future = (usize, u32);

    fn poll_ready(&mut self, _waker: &Waker) -> Poll<Result<(), String>> {
        self.polled += 1;
        if self.broken {
            Poll::Ready(Err("broken".to_string()))
        } else if self.ready {
            Poll::Ready(Ok(()))
        } else {
            Poll::Pending
        }
    }

    fn call(&mut self, request: u32) -> (usize, u32) {
        self.called += 1;
        (self.called, request * 2)
    }
}

impl Load for Counter {
    type Metric = usize;

    fn load(&self) -> usize {
        self.called
    }
}

struct Flag(AtomicUsize);

impl Wake for Flag {
    fn wake(self: Arc<Self>) {
        self.0.fetch_add(1, Ordering::SeqCst);
    }
}

fn waker() -> (Arc<Flag>, Waker) {
    let flag = Arc::new(Flag(AtomicUsize::new(0)));
    (flag.clone(), Waker::from(flag))
}

fn woken(flag: &Arc<Flag>) -> usize {
    flag.0.load(Ordering::SeqCst)
}

/// Wakes whom the adapter names, as its owner does, and gives the ticket of
/// the waiter whose turn it is.
fn rouse(wake: Roused) -> Option<u64> {
    for waker in wake.parked {
        waker.wake();
    }
    wake.next
}

/// What a submitted request resolves through, and the waiter to wake.
fn submitted(submission: Submission<(usize, u32), u32>) -> ((usize, u32), Option<u64>) {
    match submission {
        Submission::Submitted(future, wake) => (future, rouse(wake)),
        other => panic!("unexpected {:?}", other),
    }
}

/// The ticket and the request of a suspended call.
fn suspended(submission: Submission<(usize, u32), u32>) -> (u64, u32) {
    match submission {
        Submission::Suspended(ticket, request) => (ticket, request),
        other => panic!("unexpected {:?}", other),
    }
}

#[test]
fn new_adapter_is_free() {
    let shared = SharedService::new(Counter::new());
    assert!(shared.is_free());
    assert_eq!(shared.waiting(), 0);
    assert_eq!(shared.issued(), 0);
    assert_eq!(shared.parked(), 0);
    let layered = SharedLayer::default().layer(Counter::new());
    assert!(layered.is_free());
    assert_eq!(layered.waiting(), 0);
    assert_eq!(SharedLayer.layer(5u8).try_acquire(), Some(5));
}

#[test]
fn only_one_caller_holds_the_capability() {
    let mut shared = SharedService::new(7u32);
    assert_eq!(shared.try_acquire(), Some(7));
    assert!(!shared.is_free());
    assert_eq!(shared.try_acquire(), None);
    assert_eq!(shared.claim(0), None);
    assert_eq!(shared.acquire(), Admission::Queued(0));
    assert_eq!(shared.try_acquire(), None);
    assert_eq!(shared.claim(0), None);
    assert_eq!(rouse(shared.release(8)), Some(0));
    assert!(shared.is_free());
    assert_eq!(shared.claim(0), Some(8));
    assert_eq!(shared.claim(0), None);
}

#[test]
fn acquire_grants_or_queues() {
    let mut shared = SharedService::new(1u32);
    assert_eq!(shared.acquire(), Admission::Granted(1));
    assert_eq!(shared.issued(), 0);
    assert_eq!(shared.acquire(), Admission::Queued(0));
    assert_eq!(shared.acquire(), Admission::Queued(1));
    assert_eq!(shared.waiting(), 2);
    assert_eq!(shared.issued(), 2);
    assert_eq!(rouse(shared.release(1)), Some(0));
    // The capability is promised to the first in line.
    assert_eq!(shared.try_acquire(), None);
    assert_eq!(shared.acquire(), Admission::Queued(2));
    assert_eq!(shared.waiting(), 3);
}

#[test]
fn waiters_are_served_first_come_first() {
    let mut shared = SharedService::new(0u32);
    let held = shared.try_acquire().unwrap();
    for ticket in 0..4 {
        assert_eq!(shared.acquire(), Admission::Queued(ticket));
    }
    let mut wake = rouse(shared.release(held));
    for ticket in 0..4u64 {
        assert_eq!(wake, Some(ticket));
        for other in 0..4u64 {
            if other != ticket {
                assert_eq!(shared.claim(other), None);
            }
        }
        let inner = shared.claim(ticket).unwrap();
        assert_eq!(inner, ticket as u32);
        assert!(!shared.is_free());
        wake = rouse(shared.release(inner + 1));
    }
    assert_eq!(wake, None);
    assert_eq!(shared.waiting(), 0);
    assert_eq!(shared.try_acquire(), Some(4));
}

#[test]
fn waiter_that_gives_up_leaves_the_queue() {
    let mut shared = SharedService::new(0u32);
    let held = shared.try_acquire().unwrap();
    for ticket in 0..3 {
        assert_eq!(shared.acquire(), Admission::Queued(ticket));
    }
    // Not first, or unknown, or while the capability is held: nobody to wake.
    assert_eq!(rouse(shared.abandon(1)), None);
    assert_eq!(rouse(shared.abandon(9)), None);
    assert_eq!(shared.waiting(), 2);
    assert_eq!(rouse(shared.abandon(0)), None);
    assert_eq!(shared.waiting(), 1);
    assert_eq!(rouse(shared.release(held)), Some(2));
    assert_eq!(shared.claim(0), None);
    assert_eq!(shared.claim(1), None);

    assert_eq!(shared.acquire(), Admission::Queued(3));
    // The first in line gives up while the capability is free: the next is woken.
    assert_eq!(rouse(shared.abandon(2)), Some(3));
    assert_eq!(rouse(shared.abandon(3)), None);
    assert_eq!(shared.waiting(), 0);
    assert_eq!(shared.try_acquire(), Some(0));
}

#[test]
fn poll_ready_asks_the_capability_and_gives_it_back() {
    let (flag, waker) = waker();
    let mut shared = SharedService::new(Counter::new());
    assert_eq!(shared.poll_ready::<u32>(waker.clone()), Poll::Ready(Ok(())));
    assert!(shared.is_free());
    assert_eq!(shared.parked(), 0);

    let mut inner = shared.try_acquire().unwrap();
    assert_eq!(inner.polled, 1);
    inner.ready = false;
    rouse(shared.release(inner));
    assert_eq!(shared.poll_ready::<u32>(waker.clone()), Poll::Pending);
    assert!(shared.is_free());
    assert_eq!(shared.parked(), 0);

    let mut inner = shared.try_acquire().unwrap();
    assert_eq!(inner.polled, 2);
    inner.broken = true;
    rouse(shared.release(inner));
    assert_eq!(
        shared.poll_ready::<u32>(waker.clone()),
        Poll::Ready(Err("broken".to_string()))
    );
    assert!(shared.is_free());
    assert_eq!(woken(&flag), 0);
}

#[test]
fn poll_ready_does_not_wait_for_a_busy_capability() {
    let (first_flag, first) = waker();
    let (second_flag, second) = waker();
    let mut shared = SharedService::new(Counter::new());
    let inner = shared.try_acquire().unwrap();
    assert_eq!(shared.poll_ready::<u32>(first.clone()), Poll::Pending);
    assert_eq!(shared.parked(), 1);
    assert_eq!(shared.poll_ready::<u32>(second.clone()), Poll::Pending);
    assert_eq!(shared.parked(), 2);
    assert!(!shared.is_free());
    assert_eq!(inner.polled, 0);

    // Giving the capability back hands out the callers' own wakers, in the
    // order in which they asked.
    let wake = shared.release(inner);
    assert_eq!(shared.parked(), 0);
    assert_eq!(wake.next, None);
    assert_eq!(wake.parked.len(), 2);
    assert!(wake.parked[0].will_wake(&first));
    assert!(wake.parked[1].will_wake(&second));
    assert_eq!(woken(&first_flag), 0);
    assert_eq!(woken(&second_flag), 0);
    rouse(wake);
    assert_eq!(woken(&first_flag), 1);
    assert_eq!(woken(&second_flag), 1);
    assert_eq!(shared.poll_ready::<u32>(first), Poll::Ready(Ok(())));
    assert_eq!(woken(&first_flag), 1);
}

#[test]
fn poll_ready_leaves_a_promised_capability_to_its_waiter() {
    let (flag, waker) = waker();
    let mut shared = SharedService::new(Counter::new());
    let inner = shared.try_acquire().unwrap();
    assert_eq!(shared.acquire(), Admission::Queued(0));
    assert_eq!(rouse(shared.release(inner)), Some(0));
    assert_eq!(shared.poll_ready::<u32>(waker.clone()), Poll::Pending);
    assert_eq!(woken(&flag), 0);
    assert_eq!(shared.parked(), 1);
    assert_eq!(shared.waiting(), 1);
    assert!(shared.is_free());
    // The waiter takes its turn; the parked task is woken when it is done.
    let inner = shared.claim(0).unwrap();
    assert_eq!(shared.parked(), 1);
    assert_eq!(rouse(shared.release(inner)), None);
    assert_eq!(woken(&flag), 1);
    assert_eq!(shared.poll_ready::<u32>(waker), Poll::Ready(Ok(())));
}

#[test]
fn parked_task_is_woken_when_the_promised_waiter_gives_up() {
    let (flag, waker) = waker();
    let mut shared = SharedService::new(Counter::new());
    let inner = shared.try_acquire().unwrap();
    assert_eq!(shared.acquire(), Admission::Queued(0));
    assert_eq!(shared.acquire(), Admission::Queued(1));
    assert_eq!(shared.poll_ready::<u32>(waker.clone()), Poll::Pending);
    // Giving up while the capability is held wakes nobody.
    let wake = shared.abandon(1);
    assert!(wake.parked.is_empty());
    assert_eq!(rouse(wake), None);
    assert_eq!(shared.parked(), 1);
    assert_eq!(rouse(shared.release(inner)), Some(0));
    assert_eq!(woken(&flag), 1);
    assert_eq!(shared.poll_ready::<u32>(waker.clone()), Poll::Pending);
    assert_eq!(shared.parked(), 1);
    // The capability is free and promised; its waiter gives up.
    let wake = shared.abandon(0);
    assert_eq!(wake.parked.len(), 1);
    assert!(wake.parked[0].will_wake(&waker));
    assert_eq!(rouse(wake), None);
    assert_eq!(woken(&flag), 2);
    assert_eq!(shared.parked(), 0);
    assert_eq!(shared.poll_ready::<u32>(waker), Poll::Ready(Ok(())));
}

#[test]
fn calls_hand_out_the_parked_wakers_too() {
    let (flag, waker) = waker();
    let mut shared = SharedService::new(Counter::new());
    let inner = shared.try_acquire().unwrap();
    assert_eq!(suspended(shared.call(1u32)), (0, 1));
    assert_eq!(shared.poll_ready::<u32>(waker.clone()), Poll::Pending);
    assert_eq!(rouse(shared.release(inner)), Some(0));
    assert_eq!(woken(&flag), 1);
    assert_eq!(shared.poll_ready::<u32>(waker), Poll::Pending);
    assert_eq!(submitted(shared.resume(0, 1u32)), ((1, 2), None));
    assert_eq!(woken(&flag), 2);
    assert_eq!(shared.parked(), 0);
}

#[test]
fn call_submits_and_gives_the_capability_back() {
    let mut shared = SharedService::new(Counter::new());
    assert_eq!(submitted(shared.call(21u32)), ((1, 42), None));
    assert!(shared.is_free());
    assert_eq!(submitted(shared.call(4u32)), ((2, 8), None));
    assert!(shared.is_free());
    assert_eq!(shared.waiting(), 0);
    assert_eq!(shared.load(), Some(2));
}

#[test]
fn call_on_a_busy_capability_is_suspended_and_resumed() {
    let mut shared = SharedService::new(Counter::new());
    let inner = shared.try_acquire().unwrap();
    assert_eq!(suspended(shared.call(1u32)), (0, 1));
    assert_eq!(suspended(shared.call(2u32)), (1, 2));
    assert_eq!(suspended(shared.call(3u32)), (2, 3));
    assert_eq!(shared.load(), None);
    // Nobody's turn while the capability is held.
    assert_eq!(suspended(shared.resume(0, 1u32)), (0, 1));
    assert_eq!(rouse(shared.release(inner)), Some(0));
    // Only the first in line is served, and each result goes with its request.
    assert_eq!(suspended(shared.resume(1, 2u32)), (1, 2));
    assert_eq!(submitted(shared.resume(0, 1u32)), ((1, 2), Some(1)));
    assert_eq!(suspended(shared.resume(0, 1u32)), (0, 1));
    assert_eq!(suspended(shared.resume(2, 3u32)), (2, 3));
    assert_eq!(submitted(shared.resume(1, 2u32)), ((2, 4), Some(2)));
    assert_eq!(submitted(shared.resume(2, 3u32)), ((3, 6), None));
    assert!(shared.is_free());
    assert_eq!(shared.waiting(), 0);
    assert_eq!(submitted(shared.call(5u32)), ((4, 10), None));
    assert_eq!(shared.load(), Some(4));
}

#[test]
fn every_call_of_many_is_submitted_once() {
    let mut shared = SharedService::new(Counter::new());
    let inner = shared.try_acquire().unwrap();
    let mut waiting = Vec::new();
    for request in 0..50u32 {
        waiting.push(suspended(shared.call(request)));
    }
    let mut wake = rouse(shared.release(inner));
    let mut results = Vec::new();
    while let Some(ticket) = wake {
        let at = waiting.iter().position(|(t, _)| *t == ticket).unwrap();
        let (ticket, request) = waiting.remove(at);
        let ((order, doubled), next) = submitted(shared.resume(ticket, request));
        assert_eq!(doubled, request * 2);
        results.push(order);
        wake = next;
    }
    assert!(waiting.is_empty());
    assert_eq!(results, (1..=50).collect::<Vec<usize>>());
    assert_eq!(shared.load(), Some(50));
}

#[test]
fn load_asks_a_free_capability_only() {
    let mut shared = SharedService::new(Counter::new());
    assert_eq!(shared.load(), Some(0));
    let inner = shared.try_acquire().unwrap();
    assert_eq!(shared.load(), None);
    rouse(shared.release(inner));
    assert_eq!(shared.load(), Some(0));
}
