use densifyer::bit_representer::{
    count_to_string, decode_to_vec, encode_to_bitwise_string, extract_count, extract_value,
    parse_value, try_encode_to_bitwise_string, value_to_string, BitsDecodeError, BitsEncodeError,
};

fn chars(s: &str) -> Vec<char> {
    s.chars().collect()
}

#[test]
fn test_empty_string() {
    let input = "";
    let encoded = encode_to_bitwise_string(input);
    let decoded = decode_to_vec(&encoded).unwrap();
    assert_eq!(decoded, vec![]);
}

#[test]
fn test_single_value() {
    let input = "42";
    let encoded = encode_to_bitwise_string(input);
    let decoded = decode_to_vec(&encoded).unwrap();
    assert_eq!(decoded, vec![42]);
}

#[test]
fn test_multiple_unique_values() {
    let input = "1,2,3,4,5";
    let encoded = encode_to_bitwise_string(input);
    let decoded = decode_to_vec(&encoded).unwrap();
    let mut expected = vec![1, 2, 3, 4, 5];
    let mut result = decoded;
    expected.sort();
    result.sort();
    assert_eq!(result, expected);
}

#[test]
fn test_repeated_values() {
    let input = "7,7,7";
    let encoded = encode_to_bitwise_string(input);
    let decoded = decode_to_vec(&encoded).unwrap();
    let mut result = decoded;
    result.sort();
    assert_eq!(result, vec![7, 7, 7]);
}

#[test]
fn test_mixed_single_and_repeated() {
    let input = "1,2,2,3,3,3,4";
    let encoded = encode_to_bitwise_string(input);
    let decoded = decode_to_vec(&encoded).unwrap();
    let mut result = decoded;
    result.sort();
    assert_eq!(result, vec![1, 2, 2, 3, 3, 3, 4]);
}

#[test]
fn test_boundary_values_8_bit() {
    // values at 7-bit boundaries (127, 128)
    let input = "127,128";
    let encoded = encode_to_bitwise_string(input);
    let decoded = decode_to_vec(&encoded).unwrap();
    let mut result = decoded;
    result.sort();
    assert_eq!(result, vec![127, 128]);
}

#[test]
fn test_count_boundary_cases() {
    // 5 bit boundary (aka 31 vs 32)
    let repeated_31 = "5,".repeat(31);
    let repeated_32 = "5,".repeat(32);

    let input_31 = &repeated_31[..repeated_31.len() - 1];
    let input_32 = &repeated_32[..repeated_32.len() - 1];

    let encoded_31 = encode_to_bitwise_string(input_31);
    let encoded_32 = encode_to_bitwise_string(input_32);

    let decoded_31 = decode_to_vec(&encoded_31).unwrap();
    let decoded_32 = decode_to_vec(&encoded_32).unwrap();

    assert_eq!(decoded_31.len(), 31);
    assert_eq!(decoded_32.len(), 32);
    assert!(decoded_31.iter().all(|&x| x == 5));
    assert!(decoded_32.iter().all(|&x| x == 5));
}

#[test]
fn test_large_counts() {
    // (with 16 bit encoding)
    let repeated_100 = "9,".repeat(100);
    let input = &repeated_100[..repeated_100.len() - 1];

    let encoded = encode_to_bitwise_string(input);
    let decoded = decode_to_vec(&encoded).unwrap();

    assert_eq!(decoded.len(), 100);
    assert!(decoded.iter().all(|&x| x == 9));
}

#[test]
fn test_roundtrip() {
    let test_cases = vec![
        "1,2,3,4,5",
        "100,100,200,300,300,300",
        "42",
        "1,1,1,1,1,1,1,1,1,1,1,1,1,1,1,1,1,1,1,1,1,1,1,1,1,1,1,1,1,1,1,1,1",
    ];

    for input in test_cases {
        let encoded = encode_to_bitwise_string(input);
        let decoded = decode_to_vec(&encoded).unwrap();

        let mut original: Vec<u16> = input.split(',').map(|s| s.parse().unwrap()).collect();
        original.sort();

        let mut result = decoded;
        result.sort();

        assert_eq!(result, original, "roundtrip failed for input: {}", input);
    }
}

#[test]
fn test_decode_less_than_8_bits() {
    // should return empty vec
    assert!(decode_to_vec("1234567").is_ok());
    assert!(decode_to_vec("1234567").unwrap().is_empty());
}

#[test]
fn test_decode_error_cases() {
    // some invalid binary strings
    assert!(decode_to_vec("abcdefgh").is_err());
    assert!(decode_to_vec("1111111G").is_err());
}

#[test]
fn test_encode_output_length() {
    let test_inputs = vec!["1", "1,2", "1,2,3", "1,2,3,4", "1,2,3,4,5"];

    for input in test_inputs {
        let encoded = encode_to_bitwise_string(input);
        assert_eq!(
            encoded.len() % 6,
            0,
            "length is not multiple of 6 for input: {}",
            input
        );
    }
}

#[test]
fn pack_single_value_exact_digits() {
    assert_eq!(encode_to_bitwise_string("42"), "001010100000");
    assert_eq!(decode_to_vec("001010100000").unwrap(), vec![42]);
}

#[test]
fn pack_repeated_value_exact_digits() {
    // count 3 in a short field, value 7 in a short field, two zeros of padding
    assert_eq!(encode_to_bitwise_string("7,7,7"), "110000110000011100");
    assert_eq!(decode_to_vec("110000110000011100").unwrap(), vec![7, 7, 7]);
}

#[test]
fn pack_keeps_the_order_of_first_occurrence() {
    assert_eq!(
        encode_to_bitwise_string("127,128"),
        "011111111000000010000000"
    );
    assert_eq!(
        decode_to_vec("011111111000000010000000").unwrap(),
        vec![127, 128]
    );
    assert_eq!(
        encode_to_bitwise_string("128,127"),
        "100000001000000001111111"
    );
    assert_eq!(
        decode_to_vec(&encode_to_bitwise_string("3,1,3,2,1,3")).unwrap(),
        vec![3, 3, 3, 1, 1, 2]
    );
}

#[test]
fn pack_pads_to_a_multiple_of_six() {
    // 8 digits need 4 zeros, 16 need 2, 24 need none
    assert_eq!(encode_to_bitwise_string("1").len(), 12);
    assert_eq!(encode_to_bitwise_string("1,2").len(), 18);
    assert_eq!(encode_to_bitwise_string("1,2,3").len(), 24);
    assert_eq!(encode_to_bitwise_string(""), "");
}

#[test]
fn pack_tells_entries_apart_by_their_text() {
    // "7" and "07" are two entries of the same value: two runs of one
    assert_eq!(encode_to_bitwise_string("7,07"), "000001110000011100");
    assert_eq!(encode_to_bitwise_string("7,7"), "110000100000011100");
    // whitespace around an entry is no part of its text
    assert_eq!(encode_to_bitwise_string(" 7,7 ,\t7\n"), "110000110000011100");
    assert_eq!(
        encode_to_bitwise_string("\u{a0}7\u{3000},7"),
        "110000100000011100"
    );
    // a plus sign is
    assert_eq!(encode_to_bitwise_string("+7,7"), "000001110000011100");
}

#[test]
fn pack_ignores_one_comma_at_the_end() {
    assert_eq!(encode_to_bitwise_string("42,"), "001010100000");
    assert_eq!(encode_to_bitwise_string("7,7,7,"), "110000110000011100");
}

#[test]
fn value_fields_at_the_width_boundary() {
    assert_eq!(value_to_string(&chars("127")), "01111111");
    assert_eq!(value_to_string(&chars("128")), "1000000010000000");
    assert_eq!(value_to_string(&chars("1")), "00000001");
    assert_eq!(value_to_string(&chars("300")), "1000000100101100");
    assert_eq!(value_to_string(&chars("+0042")), "00101010");
}

#[test]
fn count_fields_at_the_width_boundary() {
    assert_eq!(count_to_string(31), "11011111");
    assert_eq!(count_to_string(32), "1110000000100000");
    assert_eq!(count_to_string(2), "11000010");
    assert_eq!(count_to_string(3), "11000011");
    assert_eq!(count_to_string(100), "1110000001100100");
    assert_eq!(count_to_string(8191), "1111111111111111");
}

#[test]
fn run_of_31_and_run_of_32_exact_digits() {
    let repeated_31 = vec!["5"; 31].join(",");
    let repeated_32 = vec!["5"; 32].join(",");
    assert_eq!(
        encode_to_bitwise_string(&repeated_31),
        "110111110000010100"
    );
    assert_eq!(
        encode_to_bitwise_string(&repeated_32),
        "111000000010000000000101"
    );
    assert_eq!(decode_to_vec("110111110000010100").unwrap(), vec![5; 31]);
    assert_eq!(
        decode_to_vec("111000000010000000000101").unwrap(),
        vec![5; 32]
    );
}

#[test]
fn roundtrip_of_a_thousand_entries_as_multiset() {
    let mut original: Vec<u16> = Vec::new();
    for i in 0u32..1000 {
        original.push(((i * 7919 + 13) % 300 + 1) as u16);
    }
    let input = original
        .iter()
        .map(|v| v.to_string())
        .collect::<Vec<String>>()
        .join(",");
    let encoded = encode_to_bitwise_string(&input);
    assert_eq!(encoded.len() % 6, 0);
    let mut decoded = decode_to_vec(&encoded).unwrap();
    decoded.sort();
    original.sort();
    assert_eq!(decoded, original);
}

#[test]
fn roundtrip_of_every_value() {
    for v in 1u16..=300 {
        let encoded = encode_to_bitwise_string(&v.to_string());
        assert_eq!(encoded.len(), if v <= 127 { 12 } else { 18 });
        assert_eq!(decode_to_vec(&encoded).unwrap(), vec![v]);
    }
}

#[test]
fn roundtrip_of_the_longest_run() {
    let input = vec!["300"; 8191].join(",");
    let encoded = encode_to_bitwise_string(&input);
    assert_eq!(encoded, "111111111111111110000001001011000000");
    assert_eq!(decode_to_vec(&encoded).unwrap(), vec![300; 8191]);
}

#[test]
fn parse_value_accepts_one_to_three_hundred() {
    assert_eq!(parse_value(&chars("1")), Ok(1));
    assert_eq!(parse_value(&chars("300")), Ok(300));
    assert_eq!(parse_value(&chars("+12")), Ok(12));
    assert_eq!(parse_value(&chars("000300")), Ok(300));
}

#[test]
fn parse_value_rejects_the_rest() {
    for bad in [
        "", "0", "301", "65535", "65536", "99999999999999999999", "-1", "+", "1a", "a", "1 ", " 1",
        "1.0", "++1", "１",
    ] {
        assert_eq!(
            parse_value(&chars(bad)),
            Err(BitsEncodeError::InvalidValue),
            "{:?}",
            bad
        );
    }
}

#[test]
fn try_encode_agrees_with_encode_on_what_can_be_packed() {
    for input in ["", "42", "7,7,7", "127,128", "1,2,2,3,3,3,4", " 5 , 5,5,"] {
        assert_eq!(
            try_encode_to_bitwise_string(input),
            Ok(encode_to_bitwise_string(input))
        );
    }
}

#[test]
fn try_encode_reports_an_invalid_value() {
    for input in ["0", "301", "1,,2", ",", "1,x", "1,2,-3", "1;2", "1,2,,"] {
        assert_eq!(
            try_encode_to_bitwise_string(input),
            Err(BitsEncodeError::InvalidValue),
            "{:?}",
            input
        );
    }
}

#[test]
fn try_encode_reports_a_run_that_is_too_long() {
    let input = vec!["9"; 8192].join(",");
    assert_eq!(
        try_encode_to_bitwise_string(&input),
        Err(BitsEncodeError::RunTooLong)
    );
    let mixed = format!("{},0", input);
    assert_eq!(
        try_encode_to_bitwise_string(&mixed),
        Err(BitsEncodeError::InvalidValue)
    );
}

#[test]
fn extract_value_reads_both_widths() {
    assert_eq!(extract_value(&chars("00101010")), Ok((42, 8)));
    assert_eq!(extract_value(&chars("0010101011111111")), Ok((42, 8)));
    assert_eq!(extract_value(&chars("1000000100101100")), Ok((300, 16)));
    assert_eq!(extract_value(&chars("1111111111111111")), Ok((32767, 16)));
    assert_eq!(extract_value(&chars("00000000")), Ok((0, 8)));
}

#[test]
fn extract_value_errors() {
    assert_eq!(
        extract_value(&chars("0010101")),
        Err(BitsDecodeError::UnexpectedEndOfInput)
    );
    assert_eq!(
        extract_value(&chars("")),
        Err(BitsDecodeError::UnexpectedEndOfInput)
    );
    assert_eq!(
        extract_value(&chars("100000010010110")),
        Err(BitsDecodeError::UnexpectedEndOfInput)
    );
    assert_eq!(
        extract_value(&chars("x0101010")),
        Err(BitsDecodeError::UnexpectedChar('x'))
    );
    assert_eq!(
        extract_value(&chars("0010x01y")),
        Err(BitsDecodeError::ParseError('x'))
    );
    assert_eq!(
        extract_value(&chars("100000010010110z")),
        Err(BitsDecodeError::ParseError('z'))
    );
}

#[test]
fn extract_count_reads_both_widths() {
    assert_eq!(extract_count(&chars("11000011")), Ok((3, 8)));
    assert_eq!(extract_count(&chars("11011111")), Ok((31, 8)));
    assert_eq!(extract_count(&chars("11000000")), Ok((0, 8)));
    assert_eq!(extract_count(&chars("1110000000100000")), Ok((32, 16)));
    assert_eq!(extract_count(&chars("1111111111111111")), Ok((8191, 16)));
    assert_eq!(extract_count(&chars("110000110000011100")), Ok((3, 8)));
}

#[test]
fn extract_count_errors() {
    assert_eq!(
        extract_count(&chars("11100000")),
        Err(BitsDecodeError::UnexpectedEndOfInput)
    );
    assert_eq!(
        extract_count(&chars("11?00000")),
        Err(BitsDecodeError::UnexpectedChar('?'))
    );
    assert_eq!(
        extract_count(&chars("1100a0b0")),
        Err(BitsDecodeError::ParseError('a'))
    );
    assert_eq!(
        extract_count(&chars("11100000001000c0")),
        Err(BitsDecodeError::ParseError('c'))
    );
}

#[test]
fn decode_names_each_error() {
    assert_eq!(
        decode_to_vec("abcdefgh"),
        Err(BitsDecodeError::UnexpectedChar('a'))
    );
    assert_eq!(
        decode_to_vec("1111111G"),
        Err(BitsDecodeError::UnexpectedEndOfInput)
    );
    assert_eq!(
        decode_to_vec("0000000G"),
        Err(BitsDecodeError::ParseError('G'))
    );
    // a count with no value behind it
    assert_eq!(
        decode_to_vec("11000011"),
        Err(BitsDecodeError::UnexpectedEndOfInput)
    );
    assert_eq!(
        decode_to_vec("110000110000"),
        Err(BitsDecodeError::UnexpectedEndOfInput)
    );
    // a long value cut short
    assert_eq!(
        decode_to_vec("100000010010"),
        Err(BitsDecodeError::UnexpectedEndOfInput)
    );
    // the first error wins
    assert_eq!(
        decode_to_vec("00000001x0000000y0000000"),
        Err(BitsDecodeError::UnexpectedChar('x'))
    );
}

#[test]
fn decode_short_input_is_empty_whatever_it_holds() {
    for s in ["", "0", "1", "1111111", "xyz", "€€€€€€€"] {
        assert_eq!(decode_to_vec(s), Ok(vec![]));
    }
}

#[test]
fn decode_drops_what_follows_the_last_whole_byte() {
    assert_eq!(decode_to_vec("00101010"), Ok(vec![42]));
    assert_eq!(decode_to_vec("001010100"), Ok(vec![42]));
    assert_eq!(decode_to_vec("001010101111111"), Ok(vec![42]));
    assert_eq!(decode_to_vec("00101010xyz"), Ok(vec![42]));
    assert_eq!(decode_to_vec("0010101000101011"), Ok(vec![42, 43]));
}

#[test]
fn decode_reads_a_count_of_zero_and_of_one() {
    assert_eq!(decode_to_vec("1100000000000111"), Ok(vec![]));
    assert_eq!(decode_to_vec("1100000100000111"), Ok(vec![7]));
    assert_eq!(
        decode_to_vec("110000000000011100001000"),
        Ok(vec![8])
    );
}

#[test]
fn count_fields_are_the_count_under_its_control_bits() {
    for count in 2usize..=31 {
        let expected = format!("{:08b}", count as u8 | 0b1100_0000);
        assert_eq!(count_to_string(count), expected);
        assert_eq!(extract_count(&chars(&expected)), Ok((count as u16, 8)));
    }
    for count in 32usize..=8191 {
        let expected = format!("{:016b}", count as u16 | 0b1110_0000_0000_0000);
        assert_eq!(count_to_string(count), expected);
        assert_eq!(extract_count(&chars(&expected)), Ok((count as u16, 16)));
    }
}

#[test]
fn value_fields_are_the_value_under_its_control_bit() {
    for v in 1u16..=127 {
        let expected = format!("{:08b}", v);
        assert_eq!(value_to_string(&chars(&v.to_string())), expected);
        assert_eq!(extract_value(&chars(&expected)), Ok((v, 8)));
    }
    for v in 128u16..=300 {
        let expected = format!("{:016b}", v | 0b1000_0000_0000_0000);
        assert_eq!(value_to_string(&chars(&v.to_string())), expected);
        assert_eq!(extract_value(&chars(&expected)), Ok((v, 16)));
    }
}

#[test]
fn every_byte_that_begins_with_zero_is_a_short_value() {
    for byte in 0u16..128 {
        let digits = format!("{:08b}", byte);
        assert_eq!(decode_to_vec(&digits), Ok(vec![byte]));
    }
}

#[test]
fn every_long_value_field_reads_as_its_low_fifteen_digits() {
    for word in [0x8000u16, 0x8001, 0x80ff, 0x812c, 0xbfff, 0xc000, 0xffff] {
        let digits = format!("{:016b}", word);
        assert_eq!(extract_value(&chars(&digits)), Ok((word ^ 0x8000, 16)));
    }
}
