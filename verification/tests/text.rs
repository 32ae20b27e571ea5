use alvr_telemetry::text::{le_text, push_decimal, same_text, starts_with};

fn decimal(n: u128) -> String {
    let mut out = String::new();
    push_decimal(&mut out, n);
    out
}

#[test]
fn decimal_has_no_leading_zeros() {
    assert_eq!(decimal(0), "0");
    assert_eq!(decimal(9), "9");
    assert_eq!(decimal(10), "10");
    assert_eq!(decimal(1_203_456_789), "1203456789");
    assert_eq!(decimal(u128::MAX), "340282366920938463463374607431768211455");
}

#[test]
fn decimal_is_appended() {
    let mut out = String::from("n=");
    push_decimal(&mut out, 42);
    assert_eq!(out, "n=42");
}

#[test]
fn prefixes() {
    assert!(starts_with("session_1", "session_"));
    assert!(starts_with("session_", "session_"));
    assert!(!starts_with("session", "session_"));
    assert!(!starts_with("Session_1", "session_"));
    assert!(starts_with("ä", ""));
    assert!(starts_with("äb", "ä"));
}

#[test]
fn order_is_that_of_the_bytes() {
    for (a, b) in [("", "a"), ("a", "ab"), ("a", "b"), ("10", "9"), ("z", "ä"), ("ä", "ö")] {
        assert!(le_text(a, b));
        assert!(!le_text(b, a));
        assert_eq!(le_text(a, b), a.as_bytes() <= b.as_bytes());
    }
    assert!(le_text("same", "same"));
}

#[test]
fn equality() {
    assert!(same_text("", ""));
    assert!(same_text("ä", "ä"));
    assert!(!same_text("a", "b"));
    assert!(!same_text("a", "ab"));
}
