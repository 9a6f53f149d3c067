use room_gateway::label::to_decimal;
use room_gateway::label::user_label;

#[test]
fn renders_zero() {
    assert_eq!(to_decimal(0), "0");
}

#[test]
fn renders_single_digit() {
    assert_eq!(to_decimal(7), "7");
}

#[test]
fn renders_multi_digit() {
    assert_eq!(to_decimal(1234), "1234");
}

#[test]
fn renders_round_number_with_zeros() {
    assert_eq!(to_decimal(1000), "1000");
}

#[test]
fn renders_largest_value() {
    assert_eq!(to_decimal(u64::MAX), "18446744073709551615");
}

#[test]
fn label_prefixes_anon() {
    assert_eq!(user_label(42), "anon-42");
}
