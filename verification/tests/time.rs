use sp_events::time::{Duration, Instant};

fn parts(span: Duration) -> (u64, u32) {
    (span.as_secs(), span.subsec_nanos())
}

#[test]
fn spans_are_kept_in_seconds_and_nanoseconds() {
    assert_eq!(parts(Duration::from_millis(1500)), (1, 500_000_000));
    assert_eq!(parts(Duration::from_secs(7)), (7, 0));
    assert_eq!(parts(Duration::new(1, 2_500_000_000)), (3, 500_000_000));
    assert_eq!(Duration::from_millis(u64::MAX).as_secs(), u64::MAX / 1000);
    assert_eq!(Duration::from_millis(2000), Duration::from_secs(2));
}

#[test]
fn difference_borrows_and_stops_at_zero() {
    let a = Duration::new(5, 100);
    let b = Duration::new(2, 200);
    assert_eq!(parts(a.saturating_sub(b)), (2, 999_999_900));
    assert_eq!(parts(b.saturating_sub(a)), (0, 0));
    assert_eq!(parts(a.saturating_sub(a)), (0, 0));
}

#[test]
fn shorter_is_strict() {
    let a = Duration::new(2, 5);
    let b = Duration::new(2, 6);
    let c = Duration::new(3, 0);
    assert!(a.is_shorter_than(&b));
    assert!(b.is_shorter_than(&c));
    assert!(!c.is_shorter_than(&a));
    assert!(!a.is_shorter_than(&a));
}

#[test]
fn readings_are_apart_by_a_span() {
    let early = Instant::at(Duration::from_secs(3));
    let late = Instant::at(Duration::from_millis(4250));
    assert_eq!(late.duration_since(early), Duration::from_millis(1250));
    assert_eq!(early.duration_since(late), Duration::from_secs(0));
}
