use alvr_telemetry::number::Number;

fn less(a: &str, b: &str) -> bool {
    let x = Number::parse(a, 0, a.len()).unwrap();
    let y = Number::parse(b, 0, b.len()).unwrap();
    x.less(&y)
}

#[test]
fn numbers_are_compared_by_value() {
    for (a, b) in [("9", "10"), ("0", "1"), ("099", "100"), ("123", "124"), ("199", "210")] {
        assert!(less(a, b));
        assert!(!less(b, a));
    }
    assert!(!less("7", "007") && !less("007", "7"));
    assert!(!less("0", "000") && !less("000", "0"));
}

#[test]
fn numbers_have_any_size() {
    let a = "9".repeat(200);
    let b = format!("1{}", "0".repeat(200));
    assert!(less(&a, &b));
    assert!(!less(&b, &a));
}

#[test]
fn only_digits_make_a_number() {
    for text in ["", "-1", "+1", "1 ", "1_0", "a", "٣"] {
        assert!(Number::parse(text, 0, text.chars().count()).is_none());
    }
}

#[test]
fn a_part_of_a_text_is_read() {
    let five = Number::parse("x5y", 1, 2).unwrap();
    let six = Number::parse("ä6", 1, 2).unwrap();
    assert!(five.less(&six));
    assert!(Number::zero().less(&five));
    assert!(Number::parse("x5y", 1, 1).is_none());
    assert!(Number::parse("x5y", 1, 3).is_none());
}
