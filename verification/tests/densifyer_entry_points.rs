use densifyer::base64_encoder_decoder::Base64DecodeError;
use densifyer::bit_representer::{BitsDecodeError, BitsEncodeError};
use densifyer::densifyer::{
    densify, join_values, revert_to_original_string, try_densify, DensifyerError,
};

#[test]
fn densify_exact_strings() {
    // 001010 100000
    assert_eq!(densify("42"), "*@");
    // 110000 110000 011100
    assert_eq!(densify("7,7,7"), "PP<");
    // 011111 111000 000010 000000
    assert_eq!(densify("127,128"), "?X\" ");
    assert_eq!(densify(""), "");
}

#[test]
fn revert_exact_strings() {
    assert_eq!(revert_to_original_string("*@").unwrap(), "42");
    assert_eq!(revert_to_original_string("PP<").unwrap(), "7,7,7");
    assert_eq!(revert_to_original_string("?X\" ").unwrap(), "127,128");
    assert_eq!(revert_to_original_string("").unwrap(), "");
    assert_eq!(revert_to_original_string(" ").unwrap(), "");
}

#[test]
fn revert_of_densify_is_the_list_grouped_by_entry() {
    assert_eq!(
        revert_to_original_string(&densify("3,1,3,2,1,3")).unwrap(),
        "3,3,3,1,1,2"
    );
    assert_eq!(
        revert_to_original_string(&densify("300, 10,300,1")).unwrap(),
        "300,300,10,1"
    );
}

#[test]
fn revert_tells_the_two_kinds_of_failure_apart() {
    assert_eq!(
        revert_to_original_string("*@€"),
        Err(DensifyerError::Base64DecodingError(
            Base64DecodeError::InvalidBase64Character('€')
        ))
    );
    assert_eq!(
        revert_to_original_string("abc"),
        Err(DensifyerError::Base64DecodingError(
            Base64DecodeError::InvalidBase64Character('a')
        ))
    );
    // 110000 110000: a count and half a value
    assert_eq!(
        revert_to_original_string("PP"),
        Err(DensifyerError::BitRepresentationDecodingError(
            BitsDecodeError::UnexpectedEndOfInput
        ))
    );
}

#[test]
fn try_densify_agrees_with_densify() {
    for input in ["", "42", "7,7,7", "127,128", "1,2,2,3,3,3,4"] {
        assert_eq!(try_densify(input), Ok(densify(input)));
    }
    assert_eq!(try_densify("0"), Err(BitsEncodeError::InvalidValue));
    assert_eq!(try_densify("1,301"), Err(BitsEncodeError::InvalidValue));
    assert_eq!(
        try_densify(&vec!["1"; 8192].join(",")),
        Err(BitsEncodeError::RunTooLong)
    );
}

#[test]
fn join_values_writes_decimal_digits_and_commas() {
    assert_eq!(join_values(&vec![]), "");
    assert_eq!(join_values(&vec![0]), "0");
    assert_eq!(join_values(&vec![7]), "7");
    assert_eq!(join_values(&vec![10, 9, 100]), "10,9,100");
    assert_eq!(join_values(&vec![65535, 300, 1]), "65535,300,1");
}
