//! The printable transcoder: groups of six binary digits written as one
//! character each, over the alphabet that runs from the space (code 32) to
//! the underscore (code 95).

use crate::binary::{
    bits_value, is_bit, is_bit_string, lemma_bits_value_bound,
    lemma_first_non_bit_none, lemma_to_bits_of_value, lemma_to_bits_shape, lemma_value_of_to_bits,
    push_bits, read_bits, to_bits,
};
use crate::text::to_chars;
use vstd::arithmetic::power2::*;
use vstd::prelude::*;
use vstd::slice::*;
use vstd::string::*;

verus! {

/// Why a printable string could not be turned back into binary digits.
#[derive(Debug, Clone, Copy, PartialEq, Eq)]
pub enum Base64DecodeError {
    /// The string holds this character, which is outside the alphabet.
    InvalidBase64Character(char),
}

/// Number of binary digits that one symbol stands for.
pub const SEXTET: usize = 6;

/// Code point of the symbol that stands for the group `000000`.
pub const ALPHABET_START: u32 = 32;

/// Number of symbols in the alphabet.
pub const ALPHABET_SIZE: u32 = 64;

/// Whether `c` belongs to the alphabet.
pub open spec fn is_symbol(c: char) -> bool {
    ALPHABET_START <= (c as u32) && (c as u32) < ALPHABET_START + ALPHABET_SIZE
}

/// The symbol that stands for the value `v` of a group of six digits.
pub open spec fn symbol(v: nat) -> char {
    (v + ALPHABET_START) as char
}

/// The value of the group of six digits that the symbol `c` stands for.
pub open spec fn symbol_value(c: char) -> nat {
    (c as u32 - ALPHABET_START) as nat
}

/// The printable string for a digit string: one symbol for each full group
/// of six digits.
pub open spec fn bits_to_symbols(bits: Seq<char>) -> Seq<char> {
    Seq::new(bits.len() / 6, |i: int| symbol(bits_value(bits.subrange(6 * i, 6 * i + 6))))
}

/// The digit string for a printable string: six digits for each symbol.
pub open spec fn symbols_to_bits(symbols: Seq<char>) -> Seq<char> {
    Seq::new(6 * symbols.len(), |j: int| to_bits(symbol_value(symbols[j / 6]), 6)[j % 6])
}

/// The leftmost character of `s` that is outside the alphabet, if there is one.
pub open spec fn first_foreign(s: Seq<char>) -> Option<char>
    decreases s.len(),
{
    if s.len() == 0 {
        None
    } else {
        match first_foreign(s.drop_last()) {
            Some(c) => Some(c),
            None => if is_symbol(s.last()) {
                None
            } else {
                Some(s.last())
            },
        }
    }
}

/// What decoding the printable string `s` gives: its digits, or the first
/// character that is outside the alphabet.
pub open spec fn decoded_symbols(s: Seq<char>) -> Result<Seq<char>, Base64DecodeError> {
    match first_foreign(s) {
        Some(c) => Err(Base64DecodeError::InvalidBase64Character(c)),
        None => Ok(symbols_to_bits(s)),
    }
}

/// A string has no character outside the alphabet exactly when each of its
/// characters is a symbol; a character reported as foreign is none.
pub proof fn lemma_first_foreign_none(s: Seq<char>)
    ensures
        first_foreign(s) is None <==> forall|i: int| 0 <= i < s.len() ==> is_symbol(#[trigger] s[i]),
        first_foreign(s) matches Some(c) ==> !is_symbol(c) && s.contains(c),
    decreases s.len(),
{
    if s.len() > 0 {
        let init = s.drop_last();
        lemma_first_foreign_none(init);
        if first_foreign(init) is None && is_symbol(s.last()) {
            assert forall|i: int| 0 <= i < s.len() implies is_symbol(#[trigger] s[i]) by {
                if i < s.len() - 1 {
                    assert(s[i] == init[i]);
                }
            }
        }
        if forall|i: int| 0 <= i < s.len() ==> is_symbol(#[trigger] s[i]) {
            assert forall|i: int| 0 <= i < init.len() implies is_symbol(#[trigger] init[i]) by {
                assert(init[i] == s[i]);
            }
        }
        match first_foreign(init) {
            Some(c) => {
                let k = choose|k: int| 0 <= k < init.len() && init[k] == c;
                assert(s[k] == c);
            },
            None => {
                assert(s[s.len() - 1] == s.last());
            },
        }
    }
}

/// Once a prefix holds a character outside the alphabet, that character is
/// the first such character of the whole string.
pub proof fn lemma_first_foreign_prefix(s: Seq<char>, k: int)
    requires
        0 <= k <= s.len(),
        first_foreign(s.take(k)) is Some,
    ensures
        first_foreign(s) == first_foreign(s.take(k)),
    decreases s.len() - k,
{
    if k < s.len() {
        assert(s.take(k + 1).drop_last() =~= s.take(k));
        lemma_first_foreign_prefix(s, k + 1);
    } else {
        assert(s.take(k) =~= s);
    }
}

/// Each symbol stands for a value below 64, and is the symbol of that value.
pub proof fn lemma_symbol_of_value(c: char)
    requires
        is_symbol(c),
    ensures
        symbol_value(c) < 64,
        symbol(symbol_value(c)) == c,
{
}

/// Each value below 64 has a symbol, and is the value of that symbol.
pub proof fn lemma_value_of_symbol(v: nat)
    requires
        v < 64,
    ensures
        is_symbol(symbol(v)),
        symbol_value(symbol(v)) == v,
{
}

/// The digits of a printable string are six binary digits for each symbol.
pub proof fn lemma_symbols_to_bits_shape(symbols: Seq<char>)
    ensures
        symbols_to_bits(symbols).len() == 6 * symbols.len(),
        is_bit_string(symbols_to_bits(symbols)),
{
    let bits = symbols_to_bits(symbols);
    assert forall|j: int| 0 <= j < bits.len() implies is_bit(#[trigger] bits[j]) by {
        lemma_to_bits_shape(symbol_value(symbols[j / 6]), 6);
    }
}

/// Decoding what was encoded gives back the digit string, for every binary
/// digit string made of full groups of six.
pub proof fn lemma_decode_encode(bits: Seq<char>)
    requires
        is_bit_string(bits),
        bits.len() % 6 == 0,
    ensures
        decoded_symbols(bits_to_symbols(bits)) == Ok::<Seq<char>, Base64DecodeError>(bits),
{
    let symbols = bits_to_symbols(bits);
    assert(pow2(6) == 64) by {
        lemma2_to64();
    }
    assert forall|i: int| 0 <= i < symbols.len() implies is_symbol(#[trigger] symbols[i])
        && to_bits(symbol_value(symbols[i]), 6) == bits.subrange(6 * i, 6 * i + 6) by {
        let group = bits.subrange(6 * i, 6 * i + 6);
        lemma_bits_value_bound(group);
        lemma_to_bits_of_value(group);
    }
    lemma_first_foreign_none(symbols);
    let back = symbols_to_bits(symbols);
    assert(back.len() == bits.len());
    assert forall|j: int| 0 <= j < bits.len() implies back[j] == bits[j] by {
        let i = j / 6;
        assert(is_symbol(symbols[i]));
        assert(bits.subrange(6 * i, 6 * i + 6)[j % 6] == bits[j]);
    }
    assert(back =~= bits);
}

/// Encoding what was decoded gives back the printable string, for every
/// string over the alphabet.
pub proof fn lemma_encode_decode(symbols: Seq<char>)
    requires
        first_foreign(symbols) is None,
    ensures
        decoded_symbols(symbols) == Ok::<Seq<char>, Base64DecodeError>(symbols_to_bits(symbols)),
        bits_to_symbols(symbols_to_bits(symbols)) == symbols,
{
    let bits = symbols_to_bits(symbols);
    let again = bits_to_symbols(bits);
    lemma_first_foreign_none(symbols);
    assert(pow2(6) == 64) by {
        lemma2_to64();
    }
    assert(again.len() == symbols.len());
    assert forall|i: int| 0 <= i < symbols.len() implies again[i] == symbols[i] by {
        let v = symbol_value(symbols[i]);
        assert(is_symbol(symbols[i]));
        lemma_to_bits_shape(v, 6);
        assert(bits.subrange(6 * i, 6 * i + 6) =~= to_bits(v, 6)) by {
            assert forall|k: int| 0 <= k < 6 implies bits.subrange(6 * i, 6 * i + 6)[k] == to_bits(
                v,
                6,
            )[k] by {
                assert((6 * i + k) / 6 == i);
                assert((6 * i + k) % 6 == k);
            }
        }
        lemma_value_of_to_bits(v, 6);
        lemma_symbol_of_value(symbols[i]);
    }
    assert(again =~= symbols);
}

/// Appends the symbol that stands for `v`.
fn push_symbol(out: &mut String, v: u16)
    requires
        v < 64,
    ensures
        final(out)@ == old(out)@.push(symbol(v as nat)),
{
    let alphabet = " !\"#$%&'()*+,-./0123456789:;<=>?@ABCDEFGHIJKLMNOPQRSTUVWXYZ[\\]^_";
    proof {
        reveal_strlit(" !\"#$%&'()*+,-./0123456789:;<=>?@ABCDEFGHIJKLMNOPQRSTUVWXYZ[\\]^_");
    }
    let at: usize = v as usize;
    out.append(alphabet.substring_ascii(at, at + 1));
    assert(final(out)@ =~= old(out)@.push(symbol(v as nat)));
}

/// Writes a binary digit string as a printable string, one symbol for each
/// group of six digits.
pub fn base2_to_base64(s: &str) -> (out: String)
    requires
        is_bit_string(s@),
        s@.len() % 6 == 0,
    ensures
        out@ == bits_to_symbols(s@),
        out@.len() * 6 == s@.len(),
{
    let bits = to_chars(s);
    let groups: usize = bits.len() / SEXTET;
    let mut out = String::new();
    let mut i: usize = 0;
    while i < groups
        invariant
            bits@ == s@,
            is_bit_string(s@),
            groups * 6 == bits.len(),
            i <= groups,
            out@ == bits_to_symbols(s@).take(i as int),
        decreases groups - i,
    {
        let group = slice_subrange(bits.as_slice(), SEXTET * i, SEXTET * i + SEXTET);
        proof {
            assert(is_bit_string(group@));
            lemma_first_non_bit_none(group@);
            lemma_bits_value_bound(group@);
            lemma2_to64();
        }
        match read_bits(group) {
            Ok(v) => {
                push_symbol(&mut out, v);
            },
            Err(_) => {
                proof {
                    assert(false);
                }
            },
        }
        i = i + 1;
        assert(out@ =~= bits_to_symbols(s@).take(i as int));
    }
    assert(out@ =~= bits_to_symbols(s@));
    out
}

/// Turns a printable string back into binary digits, six for each symbol,
/// or reports the first character that is outside the alphabet.
pub fn base64_to_base2(s: &str) -> (res: Result<String, Base64DecodeError>)
    ensures
        match res {
            Ok(out) => decoded_symbols(s@) == Ok::<Seq<char>, Base64DecodeError>(out@),
            Err(e) => decoded_symbols(s@) == Err::<Seq<char>, Base64DecodeError>(e),
        },
        res is Ok <==> forall|i: int| 0 <= i < s@.len() ==> is_symbol(#[trigger] s@[i]),
        res matches Ok(out) ==> is_bit_string(out@) && out@.len() == 6 * s@.len(),
        res matches Err(Base64DecodeError::InvalidBase64Character(c)) ==> !is_symbol(c)
            && s@.contains(c),
{
    let symbols = to_chars(s);
    let n: usize = symbols.len();
    let mut out = String::new();
    let mut i: usize = 0;
    proof {
        lemma_first_foreign_none(s@);
        lemma_symbols_to_bits_shape(s@);
    }
    while i < n
        invariant
            symbols@ == s@,
            n == s@.len(),
            i <= n,
            first_foreign(s@.take(i as int)) is None,
            out@ == symbols_to_bits(s@.take(i as int)),
        decreases n - i,
    {
        let c: char = symbols[i];
        let code: u32 = c as u32;
        proof {
            assert(s@.take(i + 1).drop_last() =~= s@.take(i as int));
        }
        if code < ALPHABET_START || code >= ALPHABET_START + ALPHABET_SIZE {
            proof {
                lemma_first_foreign_prefix(s@, i + 1);
            }
            return Err(Base64DecodeError::InvalidBase64Character(c));
        }
        let v: u16 = (code - ALPHABET_START) as u16;
        push_bits(&mut out, v, SEXTET);
        proof {
            let before = symbols_to_bits(s@.take(i as int));
            let after = symbols_to_bits(s@.take(i + 1));
            lemma_to_bits_shape(v as nat, 6);
            assert(after.len() == before.len() + 6);
            assert forall|j: int| 0 <= j < after.len() implies after[j] == (before + to_bits(
                v as nat,
                6,
            ))[j] by {
                if j < before.len() {
                    assert(s@.take(i + 1)[j / 6] == s@.take(i as int)[j / 6]);
                } else {
                    assert(j / 6 == i);
                    assert(j % 6 == j - before.len());
                }
            }
            assert(out@ =~= after);
        }
        i = i + 1;
    }
    proof {
        assert(s@.take(n as int) =~= s@);
    }
    Ok(out)
}

} // verus!
