use life_core::rule::{Rule, RuleError};

#[test]
fn parse_evaluates_conway() {
    let r = Rule::parse("23/3").unwrap();
    for n in 0u8..=8 {
        assert_eq!(r.survive(n), n == 2 || n == 3);
        assert_eq!(r.born(n), n == 3);
    }
}

#[test]
fn serialize_is_canonical_ascending() {
    let r = Rule::parse("32/3").unwrap();
    assert_eq!(r.serialize(), "23/3");
    let r = Rule::parse("7531/02").unwrap();
    assert_eq!(r.serialize(), "1357/02");
}

#[test]
fn round_trip_preserves_meaning() {
    for text in ["23/3", "/", "0/7", "45/456", "76543210/01234567"] {
        let a = Rule::parse(text).unwrap();
        let b = Rule::parse(&a.serialize()).unwrap();
        assert_eq!(a, b);
        assert_eq!(a.serialize(), b.serialize());
    }
}

#[test]
fn empty_parts_parse_to_empty_sets() {
    let r = Rule::parse("/").unwrap();
    for n in 0u8..=8 {
        assert!(!r.survive(n));
        assert!(!r.born(n));
    }
    assert_eq!(r.serialize(), "/");
}

#[test]
fn parse_rejects_bad_formats() {
    assert_eq!(Rule::parse("23"), Err(RuleError::InvalidFormat));
    assert_eq!(Rule::parse("2/3/4"), Err(RuleError::InvalidFormat));
    assert_eq!(Rule::parse(""), Err(RuleError::InvalidFormat));
}

#[test]
fn parse_rejects_bad_digits() {
    assert_eq!(Rule::parse("29/3"), Err(RuleError::SurviveOutOfRange));
    assert_eq!(Rule::parse("2a/3"), Err(RuleError::SurviveInvalidChar));
    assert_eq!(Rule::parse("23/9"), Err(RuleError::BornOutOfRange));
    assert_eq!(Rule::parse("23/x"), Err(RuleError::BornInvalidChar));
    // the survive part is judged first
    assert_eq!(Rule::parse("9/x"), Err(RuleError::SurviveOutOfRange));
}
