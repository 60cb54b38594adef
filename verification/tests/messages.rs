use sp_events::messages::{receive_msg, receive_msg2, schedule_messages, Received, MAX_MSG_SIZE};
use sp_events::spevents::SpEvents;
use sp_events::time::{Duration, Instant};

#[test]
fn message_is_reported_with_its_length_and_sender() {
    let outcome = Received::Message {
        bytes: "----- this is a test message".as_bytes().to_vec(),
        from: String::from("127.0.0.1:5555"),
    };
    assert_eq!(
        receive_msg(&outcome),
        "Received 28 bytes from 127.0.0.1:5555: ----- this is a test message"
    );
}

#[test]
fn length_counts_bytes_and_text_is_decoded() {
    let outcome = Received::Message { bytes: vec![0xc3, 0xa9, b'!'], from: String::from("x:1") };
    assert_eq!(receive_msg(&outcome), "Received 3 bytes from x:1: \u{e9}!");
    let empty = Received::Message { bytes: vec![], from: String::from("x:1") };
    assert_eq!(receive_msg(&empty), "Received 0 bytes from x:1: ");
    let long = Received::Message { bytes: vec![b'a'; MAX_MSG_SIZE], from: String::from("x:1") };
    assert!(receive_msg(&long).starts_with("Received 1024 bytes from x:1: aaa"));
}

#[test]
fn nothing_to_read_and_failures_are_reported() {
    assert_eq!(receive_msg(&Received::WouldBlock), "Nothing to read! Would block");
    let failed = Received::Failed { error: String::from("connection refused") };
    assert_eq!(receive_msg(&failed), "Error receiving! connection refused");
}

#[test]
fn message_that_starts_more_traffic_schedules_it() {
    let mut events: SpEvents<u64, ()> = SpEvents::new();
    let line = receive_msg2(&mut events, &Received::WouldBlock, 1);
    assert_eq!(line, "Nothing to read! Would block");
    schedule_messages(&mut events, 2, 3);

    // The clock of the loop has just been started, so the delays can be told by whole seconds.
    let far = |secs: u64| vec![Instant::at(Duration::new(secs, 900_000_000)); 4];
    let callbacks = |events: &mut SpEvents<u64, ()>, secs: u64| {
        let mut found = vec![];
        for event in events.take_ready(&far(secs)) {
            found.push((event.callback, event.delta_time));
        }
        found
    };
    assert_eq!(callbacks(&mut events, 0), vec![]);
    assert_eq!(callbacks(&mut events, 1), vec![(1, Duration::from_secs(1))]);
    assert_eq!(callbacks(&mut events, 2), vec![(2, Duration::from_secs(2))]);
    assert_eq!(callbacks(&mut events, 6), vec![]);
    assert_eq!(callbacks(&mut events, 7), vec![(3, Duration::from_secs(7))]);
}
