//! The codec's two entry points: a list of numbers to a printable string,
//! and a printable string back to a list of numbers.

use crate::base64_encoder_decoder::{
    base2_to_base64, base64_to_base2, bits_to_symbols, decoded_symbols, lemma_decode_encode,
    Base64DecodeError,
};
use crate::bit_representer::{
    decode_to_vec, encode_to_bitwise_string, lemma_packed_shape, packed, short_runs,
    try_encode_to_bitwise_string, unpacked, valid_input, valid_tokens, BitsDecodeError,
    BitsEncodeError,
};
use crate::roundtrip::{lemma_unpack_pack, listed_values};
use crate::text::{
    decimal_digits, is_digit, lemma_split_one_more, lemma_split_without_comma, lemma_trim_nothing,
    lemma_value_of_decimal_digits, list_tokens, push_decimal, split_list,
};
use vstd::prelude::*;
use vstd::string::*;

verus! {

/// Why a printable string could not be turned back into a list.
#[derive(Debug, Clone, Copy, PartialEq, Eq)]
pub enum DensifyerError {
    /// The string holds a character outside the alphabet.
    Base64DecodingError(Base64DecodeError),
    /// The digits that the string stands for are no runs of values.
    BitRepresentationDecodingError(BitsDecodeError),
}

/// The list that holds `values`: their decimal digits, with a comma
/// between one value and the next.
pub open spec fn joined(values: Seq<u16>) -> Seq<char>
    decreases values.len(),
{
    if values.len() == 0 {
        Seq::empty()
    } else if values.len() == 1 {
        decimal_digits(values[0] as nat)
    } else {
        joined(values.drop_last()) + seq![','] + decimal_digits(values.last() as nat)
    }
}

/// The printable string for the list `raw`.
pub open spec fn densified(raw: Seq<char>) -> Seq<char> {
    bits_to_symbols(packed(raw))
}

/// What turning the printable string `encoded` back gives: the list of the
/// values that it holds, in the order in which they are read, or why it
/// holds none.
pub open spec fn reverted(encoded: Seq<char>) -> Result<Seq<char>, DensifyerError> {
    match decoded_symbols(encoded) {
        Err(e) => Err(DensifyerError::Base64DecodingError(e)),
        Ok(bits) => match unpacked(bits) {
            Err(e) => Err(DensifyerError::BitRepresentationDecodingError(e)),
            Ok(values) => Ok(joined(values)),
        },
    }
}

/// The decimal digits of each of `values`, in order.
pub open spec fn written(values: Seq<u16>) -> Seq<Seq<char>> {
    values.map_values(|v: u16| decimal_digits(v as nat))
}

/// The pieces of the list that holds `values` are the decimal digits of
/// the values.
pub proof fn lemma_split_joined(values: Seq<u16>)
    ensures
        split_list(joined(values)) == written(values),
        values.len() > 0 ==> joined(values).len() > 0 && is_digit(joined(values).last()),
    decreases values.len(),
{
    if values.len() == 0 {
        assert(split_list(joined(values)) =~= written(values));
    } else {
        let digits = decimal_digits(values.last() as nat);
        lemma_value_of_decimal_digits(values.last() as nat);
        assert forall|i: int| 0 <= i < digits.len() implies digits[i] != ',' by {
            assert(is_digit(digits[i]));
        }
        assert(is_digit(digits[digits.len() - 1]));
        if values.len() == 1 {
            lemma_split_without_comma(digits);
            assert(split_list(joined(values)) =~= written(values));
        } else {
            let init = values.drop_last();
            lemma_split_joined(init);
            lemma_split_one_more(joined(init), digits);
            assert(written(values) =~= written(init).push(digits));
        }
    }
}

/// The list that holds `values`, read as a list, holds `values`.
pub proof fn lemma_listed_values_of_joined(values: Seq<u16>)
    ensures
        listed_values(joined(values)) == values,
{
    lemma_split_joined(values);
    let read = listed_values(joined(values));
    assert(read.len() == values.len());
    assert forall|i: int| 0 <= i < values.len() implies read[i] == values[i] by {
        let digits = decimal_digits(values[i] as nat);
        lemma_value_of_decimal_digits(values[i] as nat);
        assert(is_digit(digits[0]));
        assert(is_digit(digits[digits.len() - 1]));
        lemma_trim_nothing(digits);
    }
    assert(read =~= values);
}

/// Turning back what `densify` made of a list gives a list of the same
/// values, each as often as the first list holds it.
pub proof fn lemma_revert_densify(raw: Seq<char>)
    requires
        valid_input(raw),
    ensures
        reverted(densified(raw)) is Ok,
        listed_values(reverted(densified(raw))->Ok_0).to_multiset() == listed_values(
            raw,
        ).to_multiset(),
{
    lemma_packed_shape(list_tokens(raw));
    lemma_decode_encode(packed(raw));
    lemma_unpack_pack(raw);
    lemma_listed_values_of_joined(unpacked(packed(raw))->Ok_0);
}

/// Writes `values` as a list: decimal digits, with a comma between one
/// value and the next.
pub fn join_values(values: &Vec<u16>) -> (out: String)
    ensures
        out@ == joined(values@),
{
    let mut out = String::new();
    let mut i: usize = 0;
    assert(values@.take(0) =~= Seq::<u16>::empty());
    while i < values.len()
        invariant
            i <= values@.len(),
            out@ == joined(values@.take(i as int)),
        decreases values@.len() - i,
    {
        proof {
            reveal_strlit(",");
            assert(values@.take(i + 1).drop_last() =~= values@.take(i as int));
        }
        if i > 0 {
            out.append(",");
        }
        push_decimal(&mut out, values[i]);
        i = i + 1;
    }
    assert(values@.take(i as int) =~= values@);
    out
}

/// Packs the list `raw` and writes the digits as a printable string.
pub fn densify(raw: &str) -> (out: String)
    requires
        valid_input(raw@),
    ensures
        out@ == densified(raw@),
{
    let bits = encode_to_bitwise_string(raw);
    base2_to_base64(bits.as_str())
}

/// Packs the list `raw` as `densify` does, after testing that it can be
/// packed.
pub fn try_densify(raw: &str) -> (res: Result<String, BitsEncodeError>)
    ensures
        match res {
            Ok(out) => valid_input(raw@) && out@ == densified(raw@),
            Err(BitsEncodeError::InvalidValue) => !valid_tokens(list_tokens(raw@)),
            Err(BitsEncodeError::RunTooLong) => valid_tokens(list_tokens(raw@)) && !short_runs(
                list_tokens(raw@),
            ),
        },
{
    match try_encode_to_bitwise_string(raw) {
        Ok(bits) => Ok(base2_to_base64(bits.as_str())),
        Err(e) => Err(e),
    }
}

/// Turns the printable string `encoded` back into the list of the values
/// that it holds, in the order in which they are read.
pub fn revert_to_original_string(encoded: &str) -> (res: Result<String, DensifyerError>)
    ensures
        match res {
            Ok(out) => reverted(encoded@) == Ok::<Seq<char>, DensifyerError>(out@),
            Err(e) => reverted(encoded@) == Err::<Seq<char>, DensifyerError>(e),
        },
{
    let bits = match base64_to_base2(encoded) {
        Ok(bits) => bits,
        Err(e) => {
            return Err(DensifyerError::Base64DecodingError(e));
        },
    };
    let values = match decode_to_vec(bits.as_str()) {
        Ok(values) => values,
        Err(e) => {
            return Err(DensifyerError::BitRepresentationDecodingError(e));
        },
    };
    Ok(join_values(&values))
}

} // verus!
