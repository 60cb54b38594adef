use sp_events::first::{add, Action, SpEvents, Step};
use sp_events::time::{Duration, Instant};

type Callback = Box<dyn FnMut() -> usize>;

fn at_millis(millis: u64) -> Instant {
    Instant::at(Duration::from_millis(millis))
}

#[test]
fn first_it_works() {
    let result = add(2, 2);
    assert_eq!(result, 4);
}

#[test]
fn e_basics() {
    let mut my_events: SpEvents<Callback> = SpEvents::new();

    let result = my_events.e_queue(Box::new(|| add(3, 4)), Duration::from_millis(500));
    assert_eq!(result, 0);

    // Half a second has not passed, so the first turn polls for ten seconds; nothing comes in,
    // and that ends the loop.
    let mut step = my_events.e_handle_events();
    let mut polls = 0;
    loop {
        step = match my_events.resolve(step) {
            Action::RunTimed { .. } => panic!("nothing is due yet"),
            Action::Poll { timeout } => {
                assert_eq!(timeout, Duration::from_secs(10));
                polls += 1;
                my_events.polled()
            }
            Action::Return => break,
            Action::Abort => panic!("no poll has failed"),
        };
    }
    assert_eq!(polls, 1);

    // The loop has ended for good: entering it again returns at once.
    assert!(matches!(my_events.e_handle_events(), Step::Return));
}

#[test]
fn due_event_runs_once() {
    let mut events: SpEvents<Callback> = SpEvents::new();
    events.queue_at(Box::new(|| add(1, 1)), Duration::from_millis(500), at_millis(0));
    events.queue_at(Box::new(|| add(2, 2)), Duration::from_millis(100), at_millis(0));

    let readings = vec![at_millis(300), at_millis(300)];
    assert_eq!(events.next_at(0, &readings), Some(1));
    assert_eq!((events.callback(1))(), 4);
    assert!(matches!(events.timed_done(1), Step::Scan { from: 2 }));
    assert_eq!(events.next_at(2, &readings), None);
    assert_eq!(events.next_at(0, &readings), None);

    let later = vec![at_millis(501), at_millis(501)];
    assert_eq!(events.next_at(0, &later), Some(0));
    assert_eq!(events.next_at(1, &later), None);
    assert_eq!((events.callback(0))(), 2);
    assert!(matches!(events.timed_done(0), Step::Scan { from: 1 }));
    assert_eq!(events.next_at(0, &later), None);
}

#[test]
fn scan_looks_at_each_event_at_its_own_reading() {
    let mut events: SpEvents<u64> = SpEvents::new();
    events.queue_at(1, Duration::from_millis(100), at_millis(0));
    events.queue_at(2, Duration::from_millis(100), at_millis(0));
    let readings = vec![at_millis(100), at_millis(101)];
    assert_eq!(events.next_at(0, &readings), Some(1));
    assert_eq!(events.next_at(1, &readings), None);
}

#[test]
fn event_with_no_delay_is_found_on_the_real_clock() {
    let mut events: SpEvents<u64> = SpEvents::new();
    events.e_queue(7, Duration::from_millis(0));
    let mut found = None;
    while found.is_none() {
        if let Action::RunTimed { index } = events.resolve(Step::Scan { from: 0 }) {
            found = Some(index);
        }
    }
    assert_eq!(found, Some(0));
    assert_eq!(*events.callback(0), 7);
    events.timed_done(0);
    assert!(matches!(events.resolve(Step::Scan { from: 0 }), Action::Poll { .. }));
}

#[test]
fn interrupted_poll_starts_another_turn() {
    let mut events: SpEvents<u64> = SpEvents::new();
    assert!(matches!(events.poll_failed(true), Step::Scan { from: 0 }));
    assert!(matches!(events.poll_failed(false), Step::Abort));
    assert!(matches!(events.resolve(Step::Abort), Action::Abort));
    events.e_exit_events();
    assert!(matches!(events.poll_failed(true), Step::Return));
    assert!(matches!(events.resolve(Step::Return), Action::Return));
}

#[test]
fn poll_that_brings_something_goes_on() {
    let mut poll = mio::Poll::new().unwrap();
    let waker = mio::Waker::new(poll.registry(), mio::Token(3)).unwrap();
    waker.wake().unwrap();
    let mut events: SpEvents<u64> = SpEvents::new();
    assert!(events.fd_events.is_empty());
    poll.poll(&mut events.fd_events, None).unwrap();
    assert!(matches!(events.polled(), Step::Scan { from: 0 }));
}
