use mycoreutils::decimal::push_right_justified;
use mycoreutils::decimal::render;
use mycoreutils::decimal::Counter;

#[test]
fn render_writes_decimal() {
    assert_eq!(render(0), b"0");
    assert_eq!(render(7), b"7");
    assert_eq!(render(10), b"10");
    assert_eq!(render(1234567890), b"1234567890");
    assert_eq!(render(u64::MAX), b"18446744073709551615");
}

#[test]
fn right_justified_pads_on_the_left() {
    let mut out = b">".to_vec();
    push_right_justified(&mut out, b"42", 6);
    assert_eq!(out, b">    42");
    push_right_justified(&mut out, b"123456", 6);
    assert_eq!(out, b">    42123456");
    push_right_justified(&mut out, b"1234567", 6);
    assert_eq!(out, b">    421234561234567");
    push_right_justified(&mut out, b"", 2);
    assert_eq!(out, b">    421234561234567  ");
    push_right_justified(&mut out, b"x", 0);
    assert_eq!(out, b">    421234561234567  x");
}

#[test]
fn counter_counts_up() {
    let mut counter = Counter::new(1);
    assert_eq!(counter.text(), b"1");
    counter.increment();
    assert_eq!(counter.text(), b"2");
    for _ in 0..7 {
        counter.increment();
    }
    assert_eq!(counter.text(), b"9");
    counter.increment();
    assert_eq!(counter.text(), b"10");
}

#[test]
fn counter_carries() {
    let mut counter = Counter::new(0);
    assert_eq!(counter.text(), b"0");
    counter.increment();
    assert_eq!(counter.text(), b"1");

    let mut counter = Counter::new(1099);
    counter.increment();
    assert_eq!(counter.text(), b"1100");

    let mut counter = Counter::new(999_999);
    counter.increment();
    assert_eq!(counter.text(), b"1000000");
}

#[test]
fn counter_goes_past_the_largest_machine_number() {
    let mut counter = Counter::new(u64::MAX);
    counter.increment();
    assert_eq!(counter.text(), b"18446744073709551616");
    counter.increment();
    assert_eq!(counter.text(), b"18446744073709551617");
}

#[test]
fn counter_agrees_with_render() {
    let mut counter = Counter::new(0);
    for n in 0..2500u64 {
        assert_eq!(counter.text(), render(n));
        counter.increment();
    }
}
