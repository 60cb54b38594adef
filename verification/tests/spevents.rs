use sp_events::messages::{receive_msg, Received};
use sp_events::readiness::{Token, DEFAULT_EVENTS_CAPACITY};
use sp_events::registry::TimedEvent;
use sp_events::spevents::{
    add, exit_events, say_hello, AttachError, Priority, SpEvents, CAPACITY_MESSAGE,
};
use sp_events::steps::{Action, Step};
use sp_events::time::{Duration, Instant};

type Callback = fn(&mut Loop);

/// A receiver on an address of the simulated network.
struct Receiver {
    addr: &'static str,
    receive: fn(&Receiver, &mut Loop),
}

/// An event loop on a simulated clock and network.
struct Loop {
    core: SpEvents<Callback, Receiver>,
    millis: u64,
    bound: Vec<(&'static str, Token)>,
    inboxes: Vec<(&'static str, &'static str)>,
    log: Vec<(u64, String)>,
}

impl Loop {
    fn new() -> Loop {
        Loop { core: SpEvents::new(), millis: 0, bound: vec![], inboxes: vec![], log: vec![] }
    }

    fn now(&self) -> Instant {
        Instant::at(Duration::from_millis(self.millis))
    }

    fn note(&mut self, what: &str) {
        self.log.push((self.millis, String::from(what)));
    }

    fn e_queue(&mut self, func: Callback, delta_time: Duration) -> i32 {
        let now = self.now();
        self.core.queue_at(func, delta_time, now)
    }

    fn e_dequeue(&mut self, func: Callback) -> i32 {
        self.core.e_dequeue(func)
    }

    fn e_attach_fd(
        &mut self,
        addr: &'static str,
        receive: fn(&Receiver, &mut Loop),
        priority: Priority,
    ) -> Result<(), AttachError<()>> {
        let token = self.core.attach_token()?;
        self.bound.push((addr, token));
        self.core.e_attach_fd(Receiver { addr, receive }, priority, Ok(()))
    }

    fn e_detach_fd(&mut self, token: Token) -> i32 {
        let (status, event) = self.core.e_detach_fd(token);
        if let Some(event) = event {
            self.unbind(event.token);
        }
        status
    }

    fn unbind(&mut self, token: Token) {
        self.bound.retain(|(_, bound)| *bound != token);
    }

    fn send_msg(&mut self, msg: &'static str, addr: &'static str) {
        self.inboxes.push((addr, msg));
    }

    fn recv_from(&mut self, addr: &'static str) -> Received {
        for i in 0..self.inboxes.len() {
            if self.inboxes[i].0 == addr {
                let (_, msg) = self.inboxes.remove(i);
                return Received::Message {
                    bytes: msg.as_bytes().to_vec(),
                    from: String::from("127.0.0.1:1"),
                };
            }
        }
        Received::WouldBlock
    }

    /// The tokens with something to read; where there are none, lets the timeout pass.
    fn poll(&mut self, timeout: Option<Duration>) -> Vec<Token> {
        let mut tokens = vec![];
        for (addr, token) in self.bound.iter() {
            if self.inboxes.iter().any(|(to, _)| to == addr) {
                tokens.push(*token);
            }
        }
        if tokens.is_empty() {
            let wait = timeout.unwrap();
            let millis = wait.as_secs() * 1000 + wait.subsec_nanos() as u64 / 1_000_000;
            self.millis += if millis == 0 { 1 } else { millis };
        }
        tokens
    }

    fn e_handle_events(&mut self) {
        let (_, mut step) = self.core.e_handle_events();
        loop {
            let readings = vec![self.now(); self.core.scheduled() + 1];
            step = match step {
                Step::Collect => {
                    let ready = self.core.take_ready(&readings);
                    self.core.collected(ready)
                }
                Step::Wait => {
                    let timeout = self.core.timeout_at(&readings);
                    let tokens = self.poll(timeout);
                    self.core.tokens_ready(tokens)
                }
                Step::Act(Action::RunTimed { timed }) => {
                    (timed.callback)(self);
                    self.core.timed_done()
                }
                Step::Act(Action::RunFd { event, pending }) => {
                    (event.source.receive)(&event.source, self);
                    let (step, gone) = self.core.fd_done(event, pending);
                    if let Some(event) = gone {
                        self.unbind(event.token);
                    }
                    step
                }
                Step::Act(Action::Return) => return,
                Step::Act(Action::Poll { .. }) | Step::Act(Action::Abort) => unreachable!(),
            };
        }
    }
}

fn hello(events: &mut Loop) {
    events.note("hello");
    events.e_queue(hello, Duration::from_millis(5000));
}

fn leave(events: &mut Loop) {
    events.note("exit");
    exit_events(&mut events.core);
}

fn receive(receiver: &Receiver, events: &mut Loop) {
    let outcome = events.recv_from(receiver.addr);
    let line = receive_msg(&outcome);
    events.note(&line);
}

fn receive2(receiver: &Receiver, events: &mut Loop) {
    receive(receiver, events);
    events.e_queue(|events| events.note(&format!("{}", add(7, 8))), Duration::from_secs(1));
    assert!(events.e_attach_fd("127.0.0.1:8888", receive, Priority::HighPriority).is_ok());
    events.e_queue(
        |events| events.send_msg("***** this is a test message", "127.0.0.1:8888"),
        Duration::from_secs(2),
    );
    events.e_queue(
        |events| events.send_msg("***** this is another test message", "127.0.0.1:8888"),
        Duration::from_secs(7),
    );
}

fn entry(millis: u64, what: &str) -> (u64, String) {
    (millis, String::from(what))
}

#[test]
fn spevents_it_works() {
    let result = add(2, 2);
    assert_eq!(result, 4);
}

#[test]
fn e_timed() {
    let mut my_events = Loop::new();

    let result = my_events.e_queue(
        |events| events.note(&format!("{}", add(3, 4))),
        Duration::from_millis(500),
    );
    assert_eq!(result, 0);

    let result = my_events.e_queue(hello, Duration::from_secs(5));
    assert_eq!(result, 0);

    let result = my_events.e_queue(hello, Duration::from_secs(3));
    assert_eq!(result, 0);

    let result = my_events.e_queue(leave, Duration::from_secs(20));
    assert_eq!(result, 0);

    let result = my_events.e_dequeue(hello);
    assert_eq!(result, 0);

    my_events.e_handle_events();
    assert_eq!(
        my_events.log,
        vec![
            entry(501, "7"),
            entry(3001, "hello"),
            entry(8002, "hello"),
            entry(13003, "hello"),
            entry(18004, "hello"),
            entry(20001, "exit"),
        ]
    );
    my_events.log.clear();

    let result = my_events.e_queue(
        |events| events.note(&format!("{}", add(3333, 4444))),
        Duration::from_millis(500),
    );
    assert_eq!(result, 0);

    let result = my_events.e_queue(leave, Duration::from_secs(2));
    assert_eq!(result, 0);

    my_events.e_handle_events();
    assert_eq!(my_events.log, vec![entry(20502, "7777"), entry(22002, "exit")]);
}

#[test]
fn e_fd_minimal() {
    let mut my_events = Loop::new();
    let attached = my_events.e_attach_fd(
        "127.0.0.1:5555",
        |receiver, events| {
            events.recv_from(receiver.addr);
            events.note(&format!("{}", add(2, 5)));
        },
        Priority::HighPriority,
    );
    assert!(attached.is_ok());
    my_events.e_queue(
        |events| events.send_msg("----- this is a test message", "127.0.0.1:5555"),
        Duration::from_secs(2),
    );
    my_events.e_queue(
        |events| events.send_msg("----- this is another test message", "127.0.0.1:5555"),
        Duration::from_secs(7),
    );

    let result = my_events.e_queue(leave, Duration::from_secs(21));
    assert_eq!(result, 0);

    my_events.e_handle_events();
    assert_eq!(my_events.log, vec![entry(2001, "7"), entry(7001, "7"), entry(21001, "exit")]);
}

#[test]
fn e_fd() {
    let mut my_events = Loop::new();

    assert!(my_events.e_attach_fd("127.0.0.1:6666", receive, Priority::HighPriority).is_ok());
    my_events.e_queue(
        |events| events.send_msg("++++++ this is a test message", "127.0.0.1:6666"),
        Duration::from_secs(2),
    );
    my_events.e_queue(
        |events| events.send_msg("++++++ this is another test message", "127.0.0.1:6666"),
        Duration::from_secs(7),
    );

    assert!(my_events.e_attach_fd("127.0.0.1:7777", receive2, Priority::HighPriority).is_ok());
    my_events.e_queue(
        |events| events.send_msg("====== this is a test message", "127.0.0.1:7777"),
        Duration::from_secs(2),
    );

    let result = my_events.e_queue(leave, Duration::from_secs(21));
    assert_eq!(result, 0);

    my_events.e_handle_events();
    assert_eq!(
        my_events.log,
        vec![
            entry(2001, "Received 29 bytes from 127.0.0.1:1: ++++++ this is a test message"),
            entry(2001, "Received 29 bytes from 127.0.0.1:1: ====== this is a test message"),
            entry(3002, "15"),
            entry(4002, "Received 28 bytes from 127.0.0.1:1: ***** this is a test message"),
            entry(7001, "Received 35 bytes from 127.0.0.1:1: ++++++ this is another test message"),
            entry(9002, "Received 34 bytes from 127.0.0.1:1: ***** this is another test message"),
            entry(21001, "exit"),
        ]
    );
}

fn at_millis(millis: u64) -> Instant {
    Instant::at(Duration::from_millis(millis))
}

fn callbacks(events: Vec<TimedEvent<u64>>) -> Vec<u64> {
    events.into_iter().map(|event| event.callback).collect()
}

fn scheduled() -> SpEvents<u64, ()> {
    let mut events = SpEvents::new();
    for callback in 1..6 {
        let delay = if callback % 2 == 0 { 50 } else { 10 };
        assert_eq!(events.queue_at(callback, Duration::from_millis(delay), at_millis(0)), 0);
    }
    events
}

#[test]
fn due_events_come_out_in_the_order_of_the_sweep() {
    let mut events = scheduled();
    assert_eq!(callbacks(events.take_ready(&vec![at_millis(10); 5])), vec![]);
    // 1 leaves and 5 takes its place; 5 leaves and 4 takes its place; 2 stays; 3 leaves.
    assert_eq!(callbacks(events.take_ready(&vec![at_millis(11); 5])), vec![1, 5, 3]);
    assert_eq!(callbacks(events.take_ready(&vec![at_millis(50); 2])), vec![]);
    assert_eq!(callbacks(events.take_ready(&vec![at_millis(51); 2])), vec![4, 2]);
    assert_eq!(callbacks(events.take_ready(&vec![])), vec![]);
}

#[test]
fn each_event_is_looked_at_at_its_own_reading() {
    let mut events: SpEvents<u64, ()> = SpEvents::new();
    events.queue_at(1, Duration::from_millis(10), at_millis(0));
    events.queue_at(2, Duration::from_millis(10), at_millis(0));
    assert_eq!(callbacks(events.take_ready(&vec![at_millis(10), at_millis(11)])), vec![2]);
    assert_eq!(callbacks(events.take_ready(&vec![at_millis(11)])), vec![1]);
}

#[test]
fn timeout_is_the_shortest_wait() {
    let mut events: SpEvents<u64, ()> = SpEvents::new();
    assert_eq!(events.timeout_at(&vec![at_millis(0)]), None);
    assert_eq!(events.get_next_timeout(), None);
    events.queue_at(1, Duration::from_millis(500), at_millis(0));
    events.queue_at(2, Duration::from_millis(100), at_millis(300));
    let timeout = |millis: u64| events.timeout_at(&vec![at_millis(millis); 3]);
    assert_eq!(timeout(310), Some(Duration::from_millis(90)));
    assert_eq!(timeout(400), Some(Duration::from_millis(0)));
    assert_eq!(timeout(1000), Some(Duration::from_millis(0)));
    // The first event is looked at once more before the others.
    let readings = vec![at_millis(450), at_millis(300), at_millis(310)];
    assert_eq!(events.timeout_at(&readings), Some(Duration::from_millis(50)));
}

#[test]
fn dequeue_takes_the_first_of_several() {
    let mut events: SpEvents<u64, ()> = SpEvents::new();
    for (callback, delay) in [(1, 10), (2, 20), (1, 30), (3, 40)] {
        events.queue_at(callback, Duration::from_millis(delay), at_millis(0));
    }
    assert_eq!(events.e_dequeue(9), -1);
    assert_eq!(events.e_dequeue(1), 0);
    let left: Vec<(u64, Duration)> = events
        .take_ready(&vec![at_millis(35); 3])
        .into_iter()
        .map(|event| (event.callback, event.delta_time))
        .collect();
    // 3 has taken the place of the event that left.
    assert_eq!(left, vec![(2, Duration::from_millis(20)), (1, Duration::from_millis(30))]);
    assert_eq!(events.e_dequeue(1), -1);
    assert_eq!(events.e_dequeue(3), 0);
    assert_eq!(events.e_dequeue(3), -1);
}

#[test]
fn dequeue_undoes_queue() {
    let mut events = scheduled();
    events.queue_at(9, Duration::from_millis(1), at_millis(0));
    assert_eq!(events.scheduled(), 6);
    assert_eq!(events.e_dequeue(9), 0);
    assert_eq!(events.scheduled(), 5);
    assert_eq!(callbacks(events.take_ready(&vec![at_millis(11); 5])), vec![1, 5, 3]);
}

#[test]
fn real_clock_moves_on() {
    let mut events: SpEvents<u64, ()> = SpEvents::new();
    assert_eq!(events.e_queue(1, Duration::from_millis(20)), 0);
    assert_eq!(events.e_queue(2, Duration::from_secs(3600)), 0);
    let wait = events.get_next_timeout().unwrap();
    assert!(!Duration::from_millis(20).is_shorter_than(&wait));
    let mut ready = vec![];
    while ready.is_empty() {
        ready = events.get_ready_events();
    }
    assert_eq!(callbacks(ready), vec![1]);
    let wait = events.get_next_timeout().unwrap();
    assert!(wait.is_shorter_than(&Duration::from_secs(3600)));
    assert!(Duration::from_secs(3590).is_shorter_than(&wait));
    assert_eq!(callbacks(events.get_ready_events()), vec![]);
}

#[test]
fn greeting_is_scheduled_again() {
    let mut events: SpEvents<u64, ()> = SpEvents::new();
    say_hello(&mut events, 4);
    assert_eq!(callbacks(events.take_ready(&vec![at_millis(5000)])), vec![]);
    let ready = events.take_ready(&vec![at_millis(15000)]);
    assert_eq!(ready[0].delta_time, Duration::from_secs(5));
    assert_eq!(callbacks(ready), vec![4]);
}

fn attach(events: &mut SpEvents<u64, u64>, source: u64) {
    assert!(events.e_attach_fd::<()>(source, Priority::LowPriority, Ok(())).is_ok());
}

#[test]
fn tokens_are_never_given_out_again() {
    let mut events: SpEvents<u64, u64> = SpEvents::new();
    assert!(matches!(events.attach_token::<()>(), Ok(Token(0))));
    attach(&mut events, 10);
    attach(&mut events, 11);
    attach(&mut events, 12);
    let (status, event) = events.e_detach_fd(Token(0));
    assert_eq!(status, 0);
    assert_eq!(event.unwrap().source, 10);
    let (status, event) = events.e_detach_fd(Token(0));
    assert_eq!(status, -1);
    assert!(event.is_none());
    assert!(matches!(events.attach_token::<()>(), Ok(Token(3))));
    assert_eq!(events.get_fd_event_by_token(Token(2)).unwrap().source, 12);
    assert_eq!(events.get_fd_event_by_token(Token(1)).unwrap().source, 11);
    assert!(events.get_fd_event_by_token(Token(1)).is_none());
}

#[test]
fn failed_registration_attaches_nothing() {
    let mut events: SpEvents<u64, u64> = SpEvents::new();
    let attached = events.e_attach_fd(10, Priority::MediumPriority, Err("refused"));
    assert!(matches!(attached, Err(AttachError::Register("refused"))));
    assert!(matches!(events.attach_token::<()>(), Ok(Token(0))));
    assert_eq!(events.e_detach_fd(Token(0)).0, -1);
}

#[test]
fn full_loop_attaches_no_more() {
    let mut events: SpEvents<u64, u64> = SpEvents::new();
    for source in 0..DEFAULT_EVENTS_CAPACITY as u64 {
        attach(&mut events, source);
    }
    assert_eq!(DEFAULT_EVENTS_CAPACITY, 1024);
    assert_eq!(CAPACITY_MESSAGE, "Maximum number of FD events already registered");
    assert!(matches!(events.attach_token::<()>(), Err(AttachError::CapacityReached)));
    let attached = events.e_attach_fd::<()>(1, Priority::HighPriority, Ok(()));
    assert!(matches!(attached, Err(AttachError::CapacityReached)));
    assert_eq!(events.e_detach_fd(Token(1024)).0, -1);
    assert_eq!(events.e_detach_fd(Token(7)).0, 0);
    assert!(matches!(events.attach_token::<()>(), Ok(Token(1024))));
}

#[test]
fn served_descriptor_is_away_while_its_callback_runs() {
    let mut events: SpEvents<u64, u64> = SpEvents::new();
    attach(&mut events, 10);
    attach(&mut events, 11);
    let step = events.tokens_ready(vec![Token(9), Token(1), Token(8), Token(0), Token(1)]);
    let mut served = vec![];
    let mut step = step;
    while let Step::Act(Action::RunFd { event, pending }) = step {
        served.push(event.source);
        assert!(events.get_fd_event_by_token(event.token).is_none());
        let (next, gone) = events.fd_done(event, pending);
        assert!(gone.is_none());
        step = next;
    }
    assert!(matches!(step, Step::Collect));
    assert_eq!(served, vec![11, 10, 11]);
    assert_eq!(events.e_detach_fd(Token(0)).0, 0);
    assert_eq!(events.e_detach_fd(Token(1)).0, 0);
}

#[test]
fn exit_ends_the_loop_after_the_callback() {
    let mut events: SpEvents<u64, u64> = SpEvents::new();
    attach(&mut events, 10);
    events.queue_at(1, Duration::from_millis(0), at_millis(0));
    events.queue_at(2, Duration::from_millis(0), at_millis(0));
    let ready = events.take_ready(&vec![at_millis(1); 2]);
    match events.collected(ready) {
        Step::Act(Action::RunTimed { timed }) => {
            assert_eq!(timed.callback, 1);
            events.e_exit_events();
            assert!(matches!(events.timed_done(), Step::Act(Action::Return)));
        }
        _ => panic!("an event is due"),
    }
    // The due event that was left is gone.
    assert_eq!(events.e_dequeue(2), -1);

    // An unknown token ends the loop too, and entering it again clears the flag.
    assert!(matches!(events.tokens_ready(vec![Token(5)]), Step::Act(Action::Return)));
    assert!(matches!(events.tokens_ready(vec![]), Step::Collect));
    let (buffer, step) = events.e_handle_events();
    assert!(buffer.is_empty());
    assert!(matches!(step, Step::Collect));
    assert!(matches!(events.tokens_ready(vec![Token(5)]), Step::Collect));

    match events.tokens_ready(vec![Token(0), Token(0)]) {
        Step::Act(Action::RunFd { event, pending }) => {
            events.e_exit_events();
            assert!(matches!(events.fd_done(event, pending), (Step::Act(Action::Return), None)));
        }
        _ => panic!("the descriptor is attached"),
    }
    assert_eq!(events.e_detach_fd(Token(0)).0, 0);
}

#[test]
fn steps_are_resolved_on_the_real_clock() {
    let mut events: SpEvents<u64, u64> = SpEvents::new();
    assert!(matches!(events.resolve(Step::Collect), Action::Poll { timeout: None }));
    assert!(matches!(events.resolve(Step::Wait), Action::Poll { timeout: None }));
    assert!(matches!(events.resolve(Step::Act(Action::Return)), Action::Return));
    events.e_queue(1, Duration::from_secs(3600));
    match events.resolve(Step::Collect) {
        Action::Poll { timeout: Some(wait) } => {
            assert!(!Duration::from_secs(3600).is_shorter_than(&wait));
            assert!(Duration::from_secs(3590).is_shorter_than(&wait));
        }
        _ => panic!("nothing is due"),
    }
    events.e_queue(2, Duration::from_millis(0));
    loop {
        match events.resolve(Step::Collect) {
            Action::RunTimed { timed } => {
                assert_eq!(timed.callback, 2);
                let since = events.elapsed_since(&timed);
                assert!(timed.delta_time.is_shorter_than(&since));
                assert!(matches!(events.timed_done(), Step::Wait));
                break;
            }
            Action::Poll { .. } => {}
            _ => panic!("an event becomes due"),
        }
    }
}

#[test]
fn failed_poll_is_fatal_unless_interrupted() {
    let events: SpEvents<u64, u64> = SpEvents::new();
    assert!(matches!(events.poll_failed(true), Step::Collect));
    assert!(matches!(events.poll_failed(false), Step::Act(Action::Abort)));
}

#[test]
fn tokens_of_a_real_poll_are_served() {
    let mut poll = mio::Poll::new().unwrap();
    let waker = mio::Waker::new(poll.registry(), mio::Token(1)).unwrap();
    let mut events: SpEvents<u64, u64> = SpEvents::new();
    attach(&mut events, 10);
    attach(&mut events, 11);
    let (mut buffer, _) = events.e_handle_events();
    assert_eq!(buffer.capacity(), 1024);
    assert!(matches!(events.polled(&buffer), Step::Collect));
    waker.wake().unwrap();
    poll.poll(&mut buffer, None).unwrap();
    match events.polled(&buffer) {
        Step::Act(Action::RunFd { event, pending }) => {
            assert_eq!(event.token, Token(1));
            assert_eq!(event.source, 11);
            assert!(matches!(events.fd_done(event, pending), (Step::Collect, None)));
        }
        _ => panic!("the waker's token is attached"),
    }
}

#[test]
fn due_event_is_unscheduled_by_the_callback_before_it() {
    fn first(events: &mut Loop) {
        events.note("first");
        assert_eq!(events.e_dequeue(second), 0);
        assert_eq!(events.e_dequeue(second), -1);
        assert_eq!(events.e_dequeue(first), -1);
    }
    fn second(events: &mut Loop) {
        events.note("second");
    }
    let mut events = Loop::new();
    events.e_queue(first, Duration::from_millis(10));
    events.e_queue(second, Duration::from_millis(10));
    events.e_queue(leave, Duration::from_millis(10));
    events.e_queue(leave, Duration::from_millis(100));
    events.e_handle_events();
    // The event that was due after the two ended the loop.
    assert_eq!(events.log, vec![entry(11, "first"), entry(11, "exit")]);
}

#[test]
fn waiting_events_are_unscheduled_before_due_ones() {
    let mut events: SpEvents<u64, ()> = SpEvents::new();
    events.queue_at(1, Duration::from_millis(10), at_millis(0));
    events.queue_at(2, Duration::from_millis(10), at_millis(0));
    events.queue_at(2, Duration::from_millis(90), at_millis(0));
    events.queue_at(3, Duration::from_millis(10), at_millis(0));
    let ready = events.take_ready(&vec![at_millis(11); 4]);
    assert_eq!(events.scheduled(), 1);
    assert!(matches!(
        events.collected(ready),
        Step::Act(Action::RunTimed { timed: TimedEvent { callback: 1, .. } })
    ));
    assert_eq!(events.e_dequeue(2), 0);
    assert_eq!(events.scheduled(), 0);
    assert!(matches!(
        events.timed_done(),
        Step::Act(Action::RunTimed { timed: TimedEvent { callback: 3, .. } })
    ));
    assert_eq!(events.e_dequeue(2), 0);
    assert_eq!(events.e_dequeue(2), -1);
    assert!(matches!(events.timed_done(), Step::Wait));
}

#[test]
fn unscheduling_over_and_over_takes_all() {
    let mut events: SpEvents<u64, ()> = SpEvents::new();
    for callback in [5, 6, 5, 7, 5] {
        events.queue_at(callback, Duration::from_millis(10), at_millis(0));
    }
    let statuses: Vec<i32> = (0..4).map(|_| events.e_dequeue(5)).collect();
    assert_eq!(statuses, vec![0, 0, 0, -1]);
    let mut left = callbacks(events.take_ready(&vec![at_millis(11); 2]));
    left.sort();
    assert_eq!(left, vec![6, 7]);
}

#[test]
fn entering_the_loop_anew_drops_what_the_outer_run_had_left() {
    let mut events: SpEvents<u64, ()> = SpEvents::new();
    events.queue_at(1, Duration::from_millis(10), at_millis(0));
    events.queue_at(2, Duration::from_millis(10), at_millis(0));
    let ready = events.take_ready(&vec![at_millis(11); 2]);
    assert!(matches!(events.collected(ready), Step::Act(Action::RunTimed { .. })));
    let (_, step) = events.e_handle_events();
    assert!(matches!(step, Step::Collect));
    assert_eq!(events.e_dequeue(2), -1);
    assert!(matches!(events.timed_done(), Step::Wait));
}

#[test]
fn descriptor_is_detached_from_inside_its_own_callback() {
    fn once(receiver: &Receiver, events: &mut Loop) {
        receive(receiver, events);
        assert_eq!(events.e_detach_fd(Token(0)), 0);
        assert_eq!(events.e_detach_fd(Token(0)), -1);
        assert_eq!(events.bound.len(), 1);
    }
    let mut events = Loop::new();
    assert!(events.e_attach_fd("127.0.0.1:5555", once, Priority::HighPriority).is_ok());
    for delay in [1, 2] {
        events.e_queue(
            |events| events.send_msg("----- this is a test message", "127.0.0.1:5555"),
            Duration::from_secs(delay),
        );
    }
    events.e_queue(leave, Duration::from_secs(3));
    events.e_handle_events();
    assert_eq!(
        events.log,
        vec![
            entry(
                1001,
                "Received 28 bytes from 127.0.0.1:1: ----- this is a test message"
            ),
            entry(3001, "exit"),
        ]
    );
    assert_eq!(events.bound.len(), 0);
    assert_eq!(events.e_detach_fd(Token(0)), -1);
}

#[test]
fn detached_descriptor_is_handed_out_when_its_callback_is_done() {
    let mut events: SpEvents<u64, u64> = SpEvents::new();
    attach(&mut events, 10);
    attach(&mut events, 11);
    match events.tokens_ready(vec![Token(0), Token(0), Token(1)]) {
        Step::Act(Action::RunFd { event, pending }) => {
            assert_eq!(event.source, 10);
            attach(&mut events, 12);
            let (status, handed_out) = events.e_detach_fd(Token(0));
            assert_eq!(status, 0);
            assert!(handed_out.is_none());
            let (step, gone) = events.fd_done(event, pending);
            assert_eq!(gone.unwrap().source, 10);
            // The second readiness of the token is passed over.
            match step {
                Step::Act(Action::RunFd { event, .. }) => assert_eq!(event.source, 11),
                _ => panic!("the other descriptor is attached"),
            }
        }
        _ => panic!("the descriptor is attached"),
    }
    assert_eq!(events.e_detach_fd(Token(2)).0, 0);
    assert!(events.get_fd_event_by_token(Token(0)).is_none());
}

#[test]
fn remaining_waits_shrink() {
    let mut events: SpEvents<u64, ()> = SpEvents::new();
    assert_eq!(events.remaining_waits(), vec![]);
    events.e_queue(1, Duration::from_secs(3600));
    events.e_queue(2, Duration::from_millis(0));
    let waits = events.remaining_waits();
    assert_eq!(waits.len(), 2);
    assert!(Duration::from_secs(3590).is_shorter_than(&waits[0]));
    assert!(!Duration::from_secs(3600).is_shorter_than(&waits[0]));
    assert_eq!(waits[1], Duration::from_secs(0));
}

#[test]
fn timeout_is_exactly_how_long_nothing_is_due() {
    let wait = scheduled().timeout_at(&vec![at_millis(4); 6]).unwrap();
    assert_eq!(wait, Duration::from_millis(6));
    assert_eq!(callbacks(scheduled().take_ready(&vec![at_millis(10); 5])), vec![]);
    assert_eq!(callbacks(scheduled().take_ready(&vec![at_millis(11); 5])).len(), 3);
}

#[test]
fn priority_makes_no_difference() {
    for priority in [Priority::LowPriority, Priority::MediumPriority, Priority::HighPriority] {
        let mut events: SpEvents<u64, u64> = SpEvents::new();
        assert!(events.e_attach_fd::<()>(10, priority, Ok(())).is_ok());
        assert_eq!(events.e_detach_fd(Token(0)).1.unwrap().source, 10);
    }
}

#[test]
fn dequeue_undoes_queue_of_a_callback_that_is_due() {
    let mut events: SpEvents<u64, ()> = SpEvents::new();
    for callback in [1, 2, 3] {
        let delay = if callback == 3 { 90 } else { 10 };
        events.queue_at(callback, Duration::from_millis(delay), at_millis(0));
    }
    let ready = events.take_ready(&vec![at_millis(11); 3]);
    assert_eq!(events.scheduled(), 1);
    assert!(matches!(
        events.collected(ready),
        Step::Act(Action::RunTimed { timed: TimedEvent { callback: 1, .. } })
    ));
    events.queue_at(2, Duration::from_millis(20), at_millis(11));
    assert_eq!(events.scheduled(), 2);
    assert_eq!(events.e_dequeue(2), 0);
    assert_eq!(events.scheduled(), 1);
    // The event that was due before is still due.
    assert!(matches!(
        events.timed_done(),
        Step::Act(Action::RunTimed { timed: TimedEvent { callback: 2, .. } })
    ));
    assert!(matches!(events.timed_done(), Step::Wait));
}

#[test]
fn loop_goes_on_while_nobody_asks_for_its_end() {
    let mut events: SpEvents<u64, u64> = SpEvents::new();
    attach(&mut events, 10);
    for turn in 0..3 {
        let (_, step) = events.e_handle_events();
        assert!(matches!(step, Step::Collect));
        events.queue_at(turn, Duration::from_millis(0), at_millis(0));
        let ready = events.take_ready(&vec![at_millis(1)]);
        assert!(matches!(events.collected(ready), Step::Act(Action::RunTimed { .. })));
        assert_eq!(events.e_dequeue(turn), -1);
        assert!(matches!(events.timed_done(), Step::Wait));
        match events.tokens_ready(vec![Token(9), Token(0)]) {
            Step::Act(Action::RunFd { event, pending }) => {
                assert!(matches!(events.fd_done(event, pending), (Step::Collect, None)));
            }
            _ => panic!("the descriptor is attached"),
        }
    }
}

#[test]
fn exit_outlasts_what_the_callback_does_after_it() {
    let mut events: SpEvents<u64, u64> = SpEvents::new();
    attach(&mut events, 10);
    match events.tokens_ready(vec![Token(0)]) {
        Step::Act(Action::RunFd { event, pending }) => {
            events.e_exit_events();
            events.queue_at(1, Duration::from_millis(0), at_millis(0));
            assert_eq!(events.e_dequeue(1), 0);
            attach(&mut events, 11);
            assert_eq!(events.e_detach_fd(Token(1)).0, 0);
            assert!(matches!(events.fd_done(event, pending), (Step::Act(Action::Return), None)));
        }
        _ => panic!("the descriptor is attached"),
    }
    assert!(matches!(events.timed_done(), Step::Act(Action::Return)));
}

#[test]
fn descriptors_come_back_from_a_run_inside_a_callback() {
    let mut events: SpEvents<u64, u64> = SpEvents::new();
    for source in [10, 11, 12] {
        attach(&mut events, source);
    }
    match events.tokens_ready(vec![Token(0)]) {
        Step::Act(Action::RunFd { event: outer, pending: outer_pending }) => {
            assert_eq!(outer.source, 10);
            // The descriptor whose callback runs is not served by the inner run.
            match events.tokens_ready(vec![Token(0), Token(1)]) {
                Step::Act(Action::RunFd { event, pending }) => {
                    assert_eq!(event.source, 11);
                    assert!(matches!(events.fd_done(event, pending), (Step::Collect, None)));
                }
                _ => panic!("the second descriptor is attached"),
            }
            assert!(matches!(events.fd_done(outer, outer_pending), (Step::Collect, None)));
        }
        _ => panic!("the first descriptor is attached"),
    }
    assert!(matches!(events.attach_token::<()>(), Ok(Token(3))));
    for (token, source) in [(Token(0), 10), (Token(1), 11), (Token(2), 12)] {
        assert_eq!(events.get_fd_event_by_token(token).unwrap().source, source);
    }
    assert_eq!(events.e_detach_fd(Token(0)).0, -1);
}

#[test]
fn callback_attaches_beyond_the_capacity() {
    let mut events: SpEvents<u64, u64> = SpEvents::new();
    for source in 0..DEFAULT_EVENTS_CAPACITY as u64 {
        attach(&mut events, source);
    }
    match events.tokens_ready(vec![Token(0)]) {
        Step::Act(Action::RunFd { event, pending }) => {
            attach(&mut events, 2000);
            assert!(matches!(events.attach_token::<()>(), Err(AttachError::CapacityReached)));
            assert!(matches!(events.fd_done(event, pending), (Step::Collect, None)));
        }
        _ => panic!("the descriptor is attached"),
    }
    attach(&mut events, 2001);
    assert_eq!(events.get_fd_event_by_token(Token(0)).unwrap().source, 0);
    assert_eq!(events.get_fd_event_by_token(Token(1024)).unwrap().source, 2000);
    assert_eq!(events.get_fd_event_by_token(Token(1025)).unwrap().source, 2001);
}
