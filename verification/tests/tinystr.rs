use life_core::tinystr::tiny_str;

#[test]
fn tiny_strs() {
    tiny_str("hi");
    tiny_str("hello world");
    assert_ne!(tiny_str("hi").0, tiny_str("hello world").0);
    assert_eq!(tiny_str("hi").as_string(), "hi");
}

#[test]
fn tiny_str_round_trips_space_and_z() {
    assert_eq!(tiny_str("z z").as_string(), "z z");
    assert_eq!(tiny_str("b").as_string(), "b");
    assert_eq!(tiny_str("").as_string(), "");
}

#[test]
fn tiny_str_packs_codes_low_first() {
    // 'h' is code 7, 'i' is code 8: h sits in the lowest five bits.
    assert_eq!(tiny_str("hi").0, 7 | (8 << 5));
}
