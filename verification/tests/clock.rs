use alvr_telemetry::clock::{
    millis_since_epoch, nanos_since_epoch, unix_timestamp_ms, unix_timestamp_ns, TimeSpan,
};

#[test]
fn spans_are_cut_to_whole_units() {
    let span = TimeSpan { secs: 3, nanos: 123_456_789 };
    assert_eq!(span.as_nanos(), 3_123_456_789);
    assert_eq!(span.as_micros(), 3_123_456);
    assert_eq!(span.as_millis(), 3_123);
}

#[test]
fn longest_span() {
    let span = TimeSpan { secs: u64::MAX, nanos: 999_999_999 };
    assert_eq!(span.as_nanos(), 18_446_744_073_709_551_615_999_999_999);
    assert_eq!(span.as_millis(), 18_446_744_073_709_551_615_999);
}

#[test]
fn clock_before_the_epoch_counts_as_the_epoch() {
    assert_eq!(nanos_since_epoch(None), 0);
    assert_eq!(millis_since_epoch(None), 0);
}

#[test]
fn time_that_a_clock_shows() {
    let reading = Some(TimeSpan { secs: 1_700_000_000, nanos: 123_999_999 });
    assert_eq!(nanos_since_epoch(reading), 1_700_000_000_123_999_999);
    assert_eq!(millis_since_epoch(reading), 1_700_000_000_123);
}

#[test]
fn the_clock_runs() {
    let before = std::time::SystemTime::now()
        .duration_since(std::time::UNIX_EPOCH)
        .unwrap()
        .as_millis();
    let ms = unix_timestamp_ms();
    let ns = unix_timestamp_ns();
    assert!(before <= ms && ms < before + 60_000);
    assert!(before <= ns / 1_000_000 && ns / 1_000_000 < before + 60_000);
}
