//! Tests for decimal rendering of numeric metadata values.

use fcos_graph_builder::numtext::u64_to_string;

#[test]
fn renders_zero() {
    assert_eq!(u64_to_string(0), "0");
}

#[test]
fn renders_single_digits() {
    assert_eq!(u64_to_string(7), "7");
}

#[test]
fn renders_multi_digit_values() {
    assert_eq!(u64_to_string(10), "10");
    assert_eq!(u64_to_string(1618000000), "1618000000");
    assert_eq!(u64_to_string(90210), "90210");
}

#[test]
fn renders_maximum_value() {
    assert_eq!(u64_to_string(u64::MAX), "18446744073709551615");
}
