use gamescope_led_sync::log::clock_text;
use gamescope_led_sync::text::decimal;

#[test]
fn decimal_digits() {
    assert_eq!(decimal(0), "0");
    assert_eq!(decimal(7), "7");
    assert_eq!(decimal(10), "10");
    assert_eq!(decimal(490), "490");
    assert_eq!(decimal(1234567890123), "1234567890123");
    assert_eq!(decimal(u128::MAX), u128::MAX.to_string());
}

#[test]
fn clock_text_of_the_day() {
    assert_eq!(clock_text(0), "00:00:00");
    assert_eq!(clock_text(3661), "01:01:01");
    assert_eq!(clock_text(86399), "23:59:59");
    assert_eq!(clock_text(90061), "01:01:01");
    assert_eq!(clock_text(1_700_000_000), "22:13:20");
}
