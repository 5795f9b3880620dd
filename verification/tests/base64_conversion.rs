use densifyer::base64_encoder_decoder::{base2_to_base64, base64_to_base2, Base64DecodeError};

#[test]
fn test_base2_to_base64_simple() {
    let input = "000000";
    let result = base2_to_base64(input);
    assert_eq!(result, " ");

    let input = "111111";
    let result = base2_to_base64(input);
    assert_eq!(result, "_");
}

#[test]
fn test_base2_to_base64_multiple_chunks() {
    let input = "000000111111";
    let result = base2_to_base64(input);
    assert_eq!(result, " _");

    let input = "000001000010000011";
    let result = base2_to_base64(input);
    assert_eq!(result, "!\"#");
}

#[test]
fn test_base64_to_base2_simple() {
    let input = " ";
    let result = base64_to_base2(input).unwrap();
    assert_eq!(result, "000000");

    let input = "_";
    let result = base64_to_base2(input).unwrap();
    assert_eq!(result, "111111");
}

#[test]
fn test_roundtrip_conversion() {
    let test_cases = vec![
        "000000",
        "111111",
        "101010",
        "000000111111101010",
        "001100110011001100110011",
    ];

    for input in test_cases {
        let base64 = base2_to_base64(input);
        let back_to_base2 = base64_to_base2(&base64).unwrap();
        assert_eq!(
            back_to_base2, input,
            "Roundtrip failed for input: {}",
            input
        );
    }
}

#[test]
fn test_base64_to_base2_error_handling() {
    let invalid_inputs = vec![
        "`", // ASCII 96
        "~", // ASCII 126
        "â‚¬", // non-ASCII at all!
    ];

    for input in invalid_inputs {
        let result = base64_to_base2(input);
        assert!(result.is_err(), "expected error for input: {}", input);
    }
}

#[test]
fn test_base64_to_base2_empty() {
    let result = base64_to_base2("");
    assert!(result.is_ok());
    assert_eq!(result.unwrap(), "");
}

#[test]
fn base2_to_base64_of_nothing_is_nothing() {
    assert_eq!(base2_to_base64(""), "");
}

#[test]
fn every_group_of_six_has_its_own_symbol() {
    for v in 0u32..64 {
        let group = format!("{:06b}", v);
        let symbol = base2_to_base64(&group);
        let expected: String = vec![char::from_u32(v + 32).unwrap()].into_iter().collect();
        assert_eq!(symbol, expected);
        assert_eq!(base64_to_base2(&symbol).unwrap(), group);
    }
}

#[test]
fn whole_alphabet_decodes_and_encodes_back() {
    let alphabet: String = (32u8..96).map(|b| b as char).collect();
    let bits = base64_to_base2(&alphabet).unwrap();
    assert_eq!(bits.len(), 64 * 6);
    assert!(bits.starts_with("000000000001000010"));
    assert!(bits.ends_with("111110111111"));
    assert_eq!(base2_to_base64(&bits), alphabet);
}

#[test]
fn decode_names_the_first_foreign_character() {
    assert_eq!(
        base64_to_base2("€"),
        Err(Base64DecodeError::InvalidBase64Character('€'))
    );
    assert_eq!(
        base64_to_base2("AB`C~"),
        Err(Base64DecodeError::InvalidBase64Character('`'))
    );
    assert_eq!(
        base64_to_base2("A\u{1f}"),
        Err(Base64DecodeError::InvalidBase64Character('\u{1f}'))
    );
    assert_eq!(
        base64_to_base2("a"),
        Err(Base64DecodeError::InvalidBase64Character('a'))
    );
}

#[test]
fn decode_rejects_what_only_looks_like_a_symbol_in_its_low_byte() {
    // U+0120 has the low byte of the space and is no symbol for all that.
    assert_eq!(
        base64_to_base2("\u{120}"),
        Err(Base64DecodeError::InvalidBase64Character('\u{120}'))
    );
}

#[test]
fn decode_accepts_both_ends_of_the_alphabet() {
    assert_eq!(base64_to_base2(" _").unwrap(), "000000111111");
    assert!(base64_to_base2("\u{1f}").is_err());
    assert!(base64_to_base2("`").is_err());
}
