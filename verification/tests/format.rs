use manim_rs::format::{decimal_string, hex_string, zero_pad};

#[test]
fn decimal_renders_numbers() {
    assert_eq!(decimal_string(0), "0");
    assert_eq!(decimal_string(7), "7");
    assert_eq!(decimal_string(10), "10");
    assert_eq!(decimal_string(1920), "1920");
    assert_eq!(decimal_string(u64::MAX), "18446744073709551615");
}

#[test]
fn zero_pad_only_grows_short_strings() {
    assert_eq!(zero_pad("7".to_string(), 3), "007");
    assert_eq!(zero_pad("1234".to_string(), 3), "1234");
    assert_eq!(zero_pad(String::new(), 2), "00");
}

#[test]
fn hex_is_lowercase_two_digits_per_byte() {
    assert_eq!(hex_string(&[0x00, 0x0f, 0xa0, 0xff]), "000fa0ff");
    assert_eq!(hex_string(&[]), "");
}
