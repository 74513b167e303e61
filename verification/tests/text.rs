use znx::text::{characters, decimal, digits_to_u128, in_base, joined, parse_u128, same_text, text_of};

#[test]
fn numbers_are_written_without_leading_zeros() {
    assert_eq!(decimal(0), "0");
    assert_eq!(decimal(1_205), "1205");
    assert_eq!(decimal(u128::MAX), "340282366920938463463374607431768211455");
    assert_eq!(in_base(0xdb8, 16), "db8");
    assert_eq!(in_base(5, 2), "101");
}

#[test]
fn numbers_are_read_as_digits_after_an_optional_plus() {
    for text in ["0", "7", "+7", "007", "340282366920938463463374607431768211455"] {
        assert_eq!(parse_u128(text), text.parse::<u128>().ok());
        assert!(parse_u128(text).is_some());
    }
    for text in ["", "+", "-1", "++1", " 1", "1 ", "1_000", "1.0", "٣", "340282366920938463463374607431768211456"] {
        assert_eq!(parse_u128(text), None);
        assert!(text.parse::<u128>().is_err());
    }
    assert_eq!(digits_to_u128(&[]), Some(0));
    assert_eq!(parse_u128(&decimal(u128::MAX)), Some(u128::MAX));
}

#[test]
fn texts_are_lists_of_characters() {
    assert_eq!(characters("añ€"), vec!['a', 'ñ', '€']);
    assert_eq!(text_of(&characters("añ€")), "añ€");
    assert_eq!(joined("a", "", "ñ"), "añ");
    assert!(same_text("ñ", "ñ"));
    assert!(!same_text("ñ", "n"));
}
