//! The bit packer: a list of small positive integers written as runs of
//! self-describing fields of binary digits, and read back from them.
//!
//! A run is a value together with the number of times it occurs. A value is
//! written in 8 digits where it is at most 127, and else in 16 digits that
//! begin with `1`. A count is written only where it is at least 2: in 8
//! digits that begin with `11` where it is at most 31, and else in 16 digits
//! that begin with `111`.

use crate::binary::{
    bits_value, first_non_bit, is_bit_string, lemma_to_bits_shape, push_bits, read_bits, to_bits,
    zeros,
};
use crate::text::{
    is_number, list_tokens, number_value, parse_number, same_chars, split_tokens, to_chars, views,
};
use vstd::prelude::*;
use vstd::slice::*;
use vstd::string::*;

verus! {

/// Why a digit string could not be read back into values.
#[derive(Debug, Clone, Copy, PartialEq, Eq)]
pub enum BitsDecodeError {
    /// A field holds this character where a binary digit belongs.
    ParseError(char),
    /// A field begins but the digits that it announces are not all there.
    UnexpectedEndOfInput,
    /// The place that tells a field's width holds this character.
    UnexpectedChar(char),
}

/// Why a list could not be packed.
#[derive(Debug, Clone, Copy, PartialEq, Eq)]
pub enum BitsEncodeError {
    /// An entry is no number, is zero, or is above `MAX_VALUE`.
    InvalidValue,
    /// An entry occurs more than `MAX_COUNT` times.
    RunTooLong,
}

/// The largest value that a list may hold.
pub const MAX_VALUE: u16 = 300;

/// The largest value that is written in a short field.
pub const SHORT_VALUE_MAX: u16 = 127;

/// The largest count that is written in a short field.
pub const SHORT_COUNT_MAX: usize = 31;

/// The largest count that a field can hold: 13 binary digits.
pub const MAX_COUNT: usize = 8191;

/// Number of digits in a short field.
pub const SHORT_FIELD: usize = 8;

/// Number of digits in a long field.
pub const LONG_FIELD: usize = 16;

/// The field that holds the value `v`.
pub open spec fn value_field(v: nat) -> Seq<char> {
    if v <= SHORT_VALUE_MAX {
        to_bits(v, 8)
    } else {
        seq!['1'] + to_bits(v, 15)
    }
}

/// The field that holds the count `c`.
pub open spec fn count_field(c: nat) -> Seq<char> {
    if c <= SHORT_COUNT_MAX {
        seq!['1', '1'] + to_bits(c, 6)
    } else {
        seq!['1', '1', '1'] + to_bits(c, 13)
    }
}

/// The digits of one run: the value's field, with the count's field in
/// front of it unless the value occurs just once.
pub open spec fn run_field(count: nat, v: nat) -> Seq<char> {
    if count == 1 {
        value_field(v)
    } else {
        count_field(count) + value_field(v)
    }
}

/// Whether `t` is an entry that can be packed: a number from 1 to
/// `MAX_VALUE`.
pub open spec fn valid_token(t: Seq<char>) -> bool {
    is_number(t) && 1 <= number_value(t) <= MAX_VALUE
}

/// Whether every entry of `tokens` can be packed.
pub open spec fn valid_tokens(tokens: Seq<Seq<char>>) -> bool {
    forall|i: int| 0 <= i < tokens.len() ==> valid_token(#[trigger] tokens[i])
}

/// How many times the entry `t` occurs in `tokens`.
pub open spec fn occurrences(tokens: Seq<Seq<char>>, t: Seq<char>) -> nat
    decreases tokens.len(),
{
    if tokens.len() == 0 {
        0
    } else {
        occurrences(tokens.drop_last(), t) + if tokens.last() == t {
            1nat
        } else {
            0nat
        }
    }
}

/// Whether no entry of `tokens` occurs more than `MAX_COUNT` times.
pub open spec fn short_runs(tokens: Seq<Seq<char>>) -> bool {
    forall|i: int| 0 <= i < tokens.len() ==> occurrences(tokens, #[trigger] tokens[i]) <= MAX_COUNT
}

/// The entries of `tokens` without repetition, each at the place of its
/// first occurrence. Entries are told apart by their text.
pub open spec fn distinct_tokens(tokens: Seq<Seq<char>>) -> Seq<Seq<char>>
    decreases tokens.len(),
{
    if tokens.len() == 0 {
        Seq::empty()
    } else if tokens.drop_last().contains(tokens.last()) {
        distinct_tokens(tokens.drop_last())
    } else {
        distinct_tokens(tokens.drop_last()).push(tokens.last())
    }
}

/// Whether the list `s` can be packed: each of its entries is a number
/// from 1 to `MAX_VALUE`, and none occurs more than `MAX_COUNT` times.
pub open spec fn valid_input(s: Seq<char>) -> bool {
    valid_tokens(list_tokens(s)) && short_runs(list_tokens(s))
}

/// The digits of the runs of `tokens` for the entries `keys`, in the order
/// of `keys`.
pub open spec fn runs_bits(tokens: Seq<Seq<char>>, keys: Seq<Seq<char>>) -> Seq<char>
    decreases keys.len(),
{
    if keys.len() == 0 {
        Seq::empty()
    } else {
        runs_bits(tokens, keys.drop_last()) + run_field(
            occurrences(tokens, keys.last()),
            number_value(keys.last()),
        )
    }
}

/// How many zeros bring a string of `len` digits to a multiple of 6.
pub open spec fn padding(len: nat) -> nat {
    ((6 - len % 6) % 6) as nat
}

/// `bits` with zeros after it up to the next multiple of 6.
pub open spec fn pad_to_sextets(bits: Seq<char>) -> Seq<char> {
    bits + zeros(padding(bits.len()))
}

/// The digit string for the entries `tokens`: one run for each distinct
/// entry, in the order of first occurrence, then the padding.
pub open spec fn packed_tokens(tokens: Seq<Seq<char>>) -> Seq<char> {
    pad_to_sextets(runs_bits(tokens, distinct_tokens(tokens)))
}

/// The digit string for the list `s`.
pub open spec fn packed(s: Seq<char>) -> Seq<char> {
    packed_tokens(list_tokens(s))
}

/// Whether `runs` is the tally of `tokens`: for each distinct entry, in the
/// order of first occurrence, a position at which it stands and the number
/// of times it occurs.
spec fn is_tally(tokens: Seq<Seq<char>>, runs: Seq<(usize, usize)>) -> bool {
    &&& runs.len() == distinct_tokens(tokens).len()
    &&& forall|j: int|
        0 <= j < runs.len() ==> {
            &&& (#[trigger] runs[j]).0 < tokens.len()
            &&& tokens[runs[j].0 as int] == distinct_tokens(tokens)[j]
            &&& runs[j].1 == occurrences(tokens, distinct_tokens(tokens)[j])
        }
}

/// The number that the digits of `t` from `from` up to `to` denote, or the
/// first character among them that is not a binary digit.
pub open spec fn field_payload(t: Seq<char>, from: int, to: int) -> Result<u16, BitsDecodeError> {
    match first_non_bit(t.subrange(from, to)) {
        Some(c) => Err(BitsDecodeError::ParseError(c)),
        None => Ok(bits_value(t.subrange(from, to)) as u16),
    }
}

/// `payload` together with the number of digits that the field took.
pub open spec fn with_width(payload: Result<u16, BitsDecodeError>, width: usize) -> Result<
    (u16, usize),
    BitsDecodeError,
> {
    match payload {
        Ok(v) => Ok((v, width)),
        Err(e) => Err(e),
    }
}

/// What reading a value's field at the start of `t` gives: the value and
/// the number of digits read.
pub open spec fn read_value(t: Seq<char>) -> Result<(u16, usize), BitsDecodeError> {
    if t.len() < 8 {
        Err(BitsDecodeError::UnexpectedEndOfInput)
    } else if t[0] == '0' {
        with_width(field_payload(t, 0, 8), 8)
    } else if t[0] == '1' {
        if t.len() < 16 {
            Err(BitsDecodeError::UnexpectedEndOfInput)
        } else {
            with_width(field_payload(t, 1, 16), 16)
        }
    } else {
        Err(BitsDecodeError::UnexpectedChar(t[0]))
    }
}

/// Whether `t` begins with the two digits that mark a count's field.
pub open spec fn starts_with_count(t: Seq<char>) -> bool {
    t.len() >= 2 && t[0] == '1' && t[1] == '1'
}

/// What reading a count's field at the start of `t` gives: the count and
/// the number of digits read. It is meant for a `t` of at least 8
/// characters that begins with the mark of a count.
pub open spec fn read_count(t: Seq<char>) -> Result<(u16, usize), BitsDecodeError> {
    if t[2] == '0' {
        with_width(field_payload(t, 2, 8), 8)
    } else if t[2] == '1' {
        if t.len() < 16 {
            Err(BitsDecodeError::UnexpectedEndOfInput)
        } else {
            with_width(field_payload(t, 3, 16), 16)
        }
    } else {
        Err(BitsDecodeError::UnexpectedChar(t[2]))
    }
}

/// What reading one run at the start of `t` gives: its count, its value
/// and the number of digits read. It is meant for a `t` of at least 8
/// characters.
pub open spec fn read_run(t: Seq<char>) -> Result<(u16, u16, usize), BitsDecodeError> {
    if starts_with_count(t) {
        match read_count(t) {
            Err(e) => Err(e),
            Ok((count, used)) => match read_value(t.skip(used as int)) {
                Err(e) => Err(e),
                Ok((value, more)) => Ok((count, value, (used + more) as usize)),
            },
        }
    } else {
        match read_value(t) {
            Err(e) => Err(e),
            Ok((value, used)) => Ok((1u16, value, used)),
        }
    }
}

/// `count` times the value `v`.
pub open spec fn repeated(v: u16, count: nat) -> Seq<u16> {
    Seq::new(count, |i: int| v)
}

/// `r` with `done` in front of the values of its success.
pub open spec fn after(done: Seq<u16>, r: Result<Seq<u16>, BitsDecodeError>) -> Result<
    Seq<u16>,
    BitsDecodeError,
> {
    match r {
        Ok(rest) => Ok(done + rest),
        Err(e) => Err(e),
    }
}

/// A run that was read took at least 8 digits, and a whole number of groups
/// of 8.
pub proof fn lemma_read_run_width(t: Seq<char>)
    ensures
        read_run(t) matches Ok((_, _, used)) ==> used == 8 || used == 16 || used == 24 || used
            == 32,
{
}

/// What reading runs from position `pos` on gives, as long as a run begins
/// before `end`: the values of all of them, or the first error.
pub open spec fn unpack_from(s: Seq<char>, pos: int, end: int) -> Result<Seq<u16>, BitsDecodeError>
    decreases
            (if pos < end {
                end - pos
            } else {
                0
            }),
    via unpack_from_decreases
{
    if pos >= end {
        Ok(Seq::empty())
    } else {
        match read_run(s.skip(pos)) {
            Err(e) => Err(e),
            Ok((count, value, used)) => after(
                repeated(value, count as nat),
                unpack_from(s, pos + used, end),
            ),
        }
    }
}

/// Reading goes on behind the run that was read, which is at least 8
/// digits further on.
#[via_fn]
proof fn unpack_from_decreases(s: Seq<char>, pos: int, end: int) {
    lemma_read_run_width(s.skip(pos));
}

/// The number of leading characters of a string of `len` characters that
/// the reader takes into account: the largest multiple of 8 within it.
pub open spec fn whole_bytes(len: nat) -> int {
    len - len % 8
}

/// What unpacking the digit string `s` gives: the values of its runs in
/// the order in which they are read, or the first error. A string of fewer
/// than 8 characters holds no run.
pub open spec fn unpacked(s: Seq<char>) -> Result<Seq<u16>, BitsDecodeError> {
    if s.len() < 8 {
        Ok(Seq::empty())
    } else {
        unpack_from(s, 0, whole_bytes(s.len()))
    }
}

/// Reads the digits of `s` from `from` up to `to` as a number.
fn read_payload(s: &[char], from: usize, to: usize) -> (res: Result<u16, BitsDecodeError>)
    requires
        from <= to <= s@.len(),
        to - from <= 16,
    ensures
        res == field_payload(s@, from as int, to as int),
{
    match read_bits(slice_subrange(s, from, to)) {
        Ok(v) => Ok(v),
        Err(c) => Err(BitsDecodeError::ParseError(c)),
    }
}

/// Reads a count's field at the start of `s`: the count and the number of
/// digits read.
pub fn extract_count(s: &[char]) -> (res: Result<(u16, usize), BitsDecodeError>)
    requires
        s@.len() >= 8,
        starts_with_count(s@),
    ensures
        res == read_count(s@),
        res matches Ok((_, used)) ==> (used == 8 || used == 16) && used <= s@.len(),
{
    let mark: char = s[2];
    if mark == '0' {
        match read_payload(s, 2, SHORT_FIELD) {
            Ok(count) => Ok((count, SHORT_FIELD)),
            Err(e) => Err(e),
        }
    } else if mark == '1' {
        if s.len() < LONG_FIELD {
            return Err(BitsDecodeError::UnexpectedEndOfInput);
        }
        match read_payload(s, 3, LONG_FIELD) {
            Ok(count) => Ok((count, LONG_FIELD)),
            Err(e) => Err(e),
        }
    } else {
        Err(BitsDecodeError::UnexpectedChar(mark))
    }
}

/// Reads a value's field at the start of `s`: the value and the number of
/// digits read.
pub fn extract_value(s: &[char]) -> (res: Result<(u16, usize), BitsDecodeError>)
    ensures
        res == read_value(s@),
        res matches Ok((_, used)) ==> (used == 8 || used == 16) && used <= s@.len(),
{
    if s.len() < SHORT_FIELD {
        return Err(BitsDecodeError::UnexpectedEndOfInput);
    }
    let mark: char = s[0];
    if mark == '0' {
        match read_payload(s, 0, SHORT_FIELD) {
            Ok(value) => Ok((value, SHORT_FIELD)),
            Err(e) => Err(e),
        }
    } else if mark == '1' {
        if s.len() < LONG_FIELD {
            return Err(BitsDecodeError::UnexpectedEndOfInput);
        }
        match read_payload(s, 1, LONG_FIELD) {
            Ok(value) => Ok((value, LONG_FIELD)),
            Err(e) => Err(e),
        }
    } else {
        Err(BitsDecodeError::UnexpectedChar(mark))
    }
}

/// Reads one run at the start of `s`: its count, its value and the number
/// of digits read.
fn extract_run(s: &[char]) -> (res: Result<(u16, u16, usize), BitsDecodeError>)
    requires
        s@.len() >= 8,
    ensures
        res == read_run(s@),
        res matches Ok((_, _, used)) ==> 8 <= used <= s@.len() && used % 8 == 0,
{
    let mut count: u16 = 1;
    let mut start: usize = 0;
    if s[0] == '1' && s[1] == '1' {
        let (c, offset) = match extract_count(s) {
            Ok(pair) => pair,
            Err(e) => {
                return Err(e);
            },
        };
        count = c;
        start = start + offset;
    }
    let rest = slice_subrange(s, start, s.len());
    assert(rest@ =~= s@.skip(start as int));
    assert(s@.skip(0) =~= s@);
    let (number, offset) = match extract_value(rest) {
        Ok(pair) => pair,
        Err(e) => {
            return Err(e);
        },
    };
    Ok((count, number, start + offset))
}

/// A position that is a multiple of 8 and lies within a string lies within
/// its whole groups of 8.
proof fn lemma_aligned_within(pos: nat, len: nat)
    requires
        pos % 8 == 0,
        pos <= len,
    ensures
        pos <= whole_bytes(len),
        whole_bytes(len) % 8 == 0,
        pos < whole_bytes(len) ==> pos + 8 <= len,
{
}

/// Reading from the start of a run on gives the values of that run, and
/// then what reading on from its end gives.
proof fn lemma_unpack_step(s: Seq<char>, pos: int, end: int, done: Seq<u16>)
    requires
        0 <= pos < end,
        read_run(s.skip(pos)) is Ok,
    ensures
        ({
            let (count, value, used) = read_run(s.skip(pos))->Ok_0;
            after(done, unpack_from(s, pos, end)) == after(
                done + repeated(value, count as nat),
                unpack_from(s, pos + used, end),
            )
        }),
{
    let (count, value, used) = read_run(s.skip(pos))->Ok_0;
    let tail = unpack_from(s, pos + used, end);
    assert(unpack_from(s, pos, end) == after(repeated(value, count as nat), tail));
    if let Ok(values) = tail {
        assert(done + (repeated(value, count as nat) + values) =~= done + repeated(
            value,
            count as nat,
        ) + values);
    }
}

/// Appends `count` times the value `v`.
fn push_repeated(out: &mut Vec<u16>, v: u16, count: u16)
    ensures
        final(out)@ == old(out)@ + repeated(v, count as nat),
{
    let mut k: u16 = 0;
    assert(out@ =~= old(out)@ + repeated(v, 0));
    while k < count
        invariant
            k <= count,
            out@ == old(out)@ + repeated(v, k as nat),
        decreases count - k,
    {
        out.push(v);
        k = k + 1;
        assert(out@ =~= old(out)@ + repeated(v, k as nat));
    }
}

/// Unpacks a digit string into the values of its runs, in the order in
/// which the runs are read. Fewer than 8 characters hold no run; what
/// follows the last full group of 8 characters begins no run.
pub fn decode_to_vec(s: &str) -> (res: Result<Vec<u16>, BitsDecodeError>)
    ensures
        match res {
            Ok(values) => unpacked(s@) == Ok::<Seq<u16>, BitsDecodeError>(values@),
            Err(e) => unpacked(s@) == Err::<Seq<u16>, BitsDecodeError>(e),
        },
        s@.len() < 8 ==> (res matches Ok(values) && values@.len() == 0),
{
    let chars = to_chars(s);
    let n: usize = chars.len();
    if n < SHORT_FIELD {
        return Ok(Vec::new());
    }
    let end: usize = n - n % SHORT_FIELD;
    let bits = chars.as_slice();
    let mut start: usize = 0;
    let mut output: Vec<u16> = Vec::new();
    assert(Seq::<u16>::empty() + Seq::<u16>::empty() =~= Seq::<u16>::empty());
    while start < end
        invariant
            bits@ == s@,
            n == s@.len(),
            end == whole_bytes(n as nat),
            start <= end <= n,
            start % 8 == 0,
            unpack_from(s@, 0, end as int) == after(
                output@,
                unpack_from(s@, start as int, end as int),
            ),
        decreases end - start,
    {
        proof {
            lemma_aligned_within(start as nat, n as nat);
        }
        let rest = slice_subrange(bits, start, n);
        assert(rest@ =~= s@.skip(start as int));
        match extract_run(rest) {
            Ok((count, number, used)) => {
                proof {
                    lemma_aligned_within((start + used) as nat, n as nat);
                    lemma_unpack_step(s@, start as int, end as int, output@);
                }
                push_repeated(&mut output, number, count);
                start = start + used;
            },
            Err(e) => {
                return Err(e);
            },
        }
    }
    assert(output@ + Seq::<u16>::empty() =~= output@);
    Ok(output)
}

/// A field is made of binary digits, 8 of them or 16.
pub proof fn lemma_field_shapes(count: nat, v: nat)
    ensures
        is_bit_string(value_field(v)),
        value_field(v).len() == (if v <= SHORT_VALUE_MAX {
            8nat
        } else {
            16nat
        }),
        is_bit_string(count_field(count)),
        count_field(count).len() == (if count <= SHORT_COUNT_MAX {
            8nat
        } else {
            16nat
        }),
        is_bit_string(run_field(count, v)),
        run_field(count, v).len() % 8 == 0,
        run_field(count, v).len() >= 8,
{
    lemma_to_bits_shape(v, 8);
    lemma_to_bits_shape(v, 15);
    lemma_to_bits_shape(count, 6);
    lemma_to_bits_shape(count, 13);
}

/// An entry that does not stand in a list occurs in it zero times, and one
/// that stands in it at least once.
pub proof fn lemma_occurrences_contains(tokens: Seq<Seq<char>>, t: Seq<char>)
    ensures
        tokens.contains(t) <==> occurrences(tokens, t) > 0,
        occurrences(tokens, t) <= tokens.len(),
    decreases tokens.len(),
{
    if tokens.len() > 0 {
        let init = tokens.drop_last();
        lemma_occurrences_contains(init, t);
        if init.contains(t) {
            let k = choose|k: int| 0 <= k < init.len() && init[k] == t;
            assert(tokens[k] == t);
        }
        if tokens.last() == t {
            assert(tokens[tokens.len() - 1] == t);
        }
        if tokens.contains(t) && tokens.last() != t {
            let k = choose|k: int| 0 <= k < tokens.len() && tokens[k] == t;
            assert(init[k] == t);
        }
    }
}

/// The distinct entries of a list are the entries of the list, and none of
/// them stands twice among them.
pub proof fn lemma_distinct_members(tokens: Seq<Seq<char>>)
    ensures
        forall|t: Seq<char>|
            #![trigger distinct_tokens(tokens).contains(t)]
            #![trigger tokens.contains(t)]
            distinct_tokens(tokens).contains(t) <==> tokens.contains(t),
        distinct_tokens(tokens).no_duplicates(),
        distinct_tokens(tokens).len() <= tokens.len(),
    decreases tokens.len(),
{
    if tokens.len() > 0 {
        let init = tokens.drop_last();
        let last = tokens.last();
        let old_keys = distinct_tokens(init);
        let keys = distinct_tokens(tokens);
        lemma_distinct_members(init);
        assert forall|t: Seq<char>| keys.contains(t) implies tokens.contains(t) by {
            let k = choose|k: int| 0 <= k < keys.len() && keys[k] == t;
            if k < old_keys.len() {
                assert(old_keys[k] == t);
                assert(old_keys.contains(t));
                assert(init.contains(t));
                let m = choose|m: int| 0 <= m < init.len() && init[m] == t;
                assert(tokens[m] == t);
            } else {
                assert(tokens[tokens.len() - 1] == t);
            }
        }
        assert forall|t: Seq<char>| tokens.contains(t) implies keys.contains(t) by {
            let m = choose|m: int| 0 <= m < tokens.len() && tokens[m] == t;
            if m < init.len() {
                assert(init[m] == t);
                assert(init.contains(t));
            }
            if init.contains(t) {
                assert(old_keys.contains(t));
                let k = choose|k: int| 0 <= k < old_keys.len() && old_keys[k] == t;
                assert(keys[k] == t);
            } else {
                assert(t == last);
                assert(keys[keys.len() - 1] == t);
            }
        }
        if !init.contains(last) {
            assert(!old_keys.contains(last));
            assert forall|i: int, j: int|
                0 <= i < keys.len() && 0 <= j < keys.len() && i != j implies keys[i] != keys[j] by {
                if i < old_keys.len() && j < old_keys.len() {
                    assert(old_keys[i] != old_keys[j]);
                } else if i < old_keys.len() {
                    assert(old_keys[i] == keys[i]);
                    assert(old_keys.contains(keys[i]));
                } else {
                    assert(old_keys[j] == keys[j]);
                    assert(old_keys.contains(keys[j]));
                }
            }
        }
    }
}

/// The tally of a list that grows by an entry whose run stands at place
/// `j`: that run counts one more.
proof fn lemma_tally_seen(
    tokens: Seq<Seq<char>>,
    x: Seq<char>,
    runs: Seq<(usize, usize)>,
    j: int,
    grown: Seq<(usize, usize)>,
)
    requires
        is_tally(tokens, runs),
        0 <= j < runs.len(),
        tokens[runs[j].0 as int] == x,
        runs[j].1 < usize::MAX,
        grown == runs.update(j, (runs[j].0, (runs[j].1 + 1) as usize)),
    ensures
        is_tally(tokens.push(x), grown),
{
    let more = tokens.push(x);
    let keys = distinct_tokens(tokens);
    lemma_distinct_members(tokens);
    assert(more.drop_last() =~= tokens);
    assert(tokens.contains(x));
    assert(distinct_tokens(more) == keys);
    assert forall|k: int| 0 <= k < grown.len() implies {
        &&& (#[trigger] grown[k]).0 < more.len()
        &&& more[grown[k].0 as int] == keys[k]
        &&& grown[k].1 == occurrences(more, keys[k])
    } by {
        assert(runs[k].0 < tokens.len());
        assert(more[runs[k].0 as int] == tokens[runs[k].0 as int]);
        if k != j {
            assert(keys[k] != keys[j]);
        }
    }
}

/// The tally of a list that grows by an entry that has no run yet: a run
/// of one occurrence more, at the end.
proof fn lemma_tally_new(tokens: Seq<Seq<char>>, x: Seq<char>, runs: Seq<(usize, usize)>)
    requires
        is_tally(tokens, runs),
        forall|k: int| 0 <= k < runs.len() ==> tokens[(#[trigger] runs[k]).0 as int] != x,
        tokens.len() < usize::MAX,
    ensures
        is_tally(tokens.push(x), runs.push((tokens.len() as usize, 1usize))),
{
    let more = tokens.push(x);
    let keys = distinct_tokens(tokens);
    let grown = runs.push((tokens.len() as usize, 1usize));
    lemma_distinct_members(tokens);
    lemma_occurrences_contains(tokens, x);
    assert(more.drop_last() =~= tokens);
    if keys.contains(x) {
        let k = choose|k: int| 0 <= k < keys.len() && keys[k] == x;
        assert(tokens[runs[k].0 as int] == x);
    }
    assert(!tokens.contains(x));
    assert(distinct_tokens(more) == keys.push(x));
    assert forall|k: int| 0 <= k < grown.len() implies {
        &&& (#[trigger] grown[k]).0 < more.len()
        &&& more[grown[k].0 as int] == distinct_tokens(more)[k]
        &&& grown[k].1 == occurrences(more, distinct_tokens(more)[k])
    } by {
        if k < runs.len() {
            assert(runs[k].0 < tokens.len());
            assert(more[runs[k].0 as int] == tokens[runs[k].0 as int]);
        }
    }
}

/// The digits of the runs for one entry more are the digits before, then
/// the run of that entry.
proof fn lemma_runs_bits_step(tokens: Seq<Seq<char>>, keys: Seq<Seq<char>>, j: int)
    requires
        0 <= j < keys.len(),
    ensures
        runs_bits(tokens, keys.take(j + 1)) == runs_bits(tokens, keys.take(j)) + run_field(
            occurrences(tokens, keys[j]),
            number_value(keys[j]),
        ),
{
    assert(keys.take(j + 1).drop_last() =~= keys.take(j));
}

/// The digits of runs are binary digits, a multiple of 8 in number.
pub proof fn lemma_runs_bits_shape(tokens: Seq<Seq<char>>, keys: Seq<Seq<char>>)
    ensures
        is_bit_string(runs_bits(tokens, keys)),
        runs_bits(tokens, keys).len() % 8 == 0,
        runs_bits(tokens, keys).len() >= 8 * keys.len(),
    decreases keys.len(),
{
    if keys.len() > 0 {
        lemma_runs_bits_shape(tokens, keys.drop_last());
        lemma_field_shapes(occurrences(tokens, keys.last()), number_value(keys.last()));
    }
}

/// A packed list is made of binary digits, a multiple of 6 in number.
pub proof fn lemma_packed_shape(tokens: Seq<Seq<char>>)
    ensures
        is_bit_string(packed_tokens(tokens)),
        packed_tokens(tokens).len() % 6 == 0,
{
    lemma_runs_bits_shape(tokens, distinct_tokens(tokens));
}

/// The empty list is packed into the empty string, without padding.
pub proof fn lemma_packed_empty(s: Seq<char>)
    requires
        s.len() == 0,
    ensures
        packed(s).len() == 0,
{
    assert(list_tokens(s) =~= Seq::<Seq<char>>::empty());
}

/// Writes the field of the count `count`.
pub fn count_to_string(count: usize) -> (out: String)
    requires
        count <= MAX_COUNT,
    ensures
        out@ == count_field(count as nat),
        out@.len() == (if count <= SHORT_COUNT_MAX {
            8nat
        } else {
            16nat
        }),
{
    proof {
        reveal_strlit("11");
        reveal_strlit("111");
        lemma_field_shapes(count as nat, 0);
    }
    let mut out = String::new();
    if count <= SHORT_COUNT_MAX {
        out.append("11");
        push_bits(&mut out, count as u16, 6);
        assert(out@ =~= count_field(count as nat));
    } else {
        out.append("111");
        push_bits(&mut out, count as u16, 13);
        assert(out@ =~= count_field(count as nat));
    }
    out
}

/// Reads the entry `token` as a value that can be packed.
pub fn parse_value(token: &[char]) -> (res: Result<u16, BitsEncodeError>)
    ensures
        match res {
            Ok(v) => valid_token(token@) && v == number_value(token@),
            Err(e) => !valid_token(token@) && e == BitsEncodeError::InvalidValue,
        },
{
    match parse_number(token, MAX_VALUE) {
        Some(v) => if v > 0 {
            Ok(v)
        } else {
            Err(BitsEncodeError::InvalidValue)
        },
        None => Err(BitsEncodeError::InvalidValue),
    }
}

/// Writes the field of the value that the entry `value` denotes.
pub fn value_to_string(value: &[char]) -> (out: String)
    requires
        valid_token(value@),
    ensures
        out@ == value_field(number_value(value@)),
        out@.len() == (if number_value(value@) <= SHORT_VALUE_MAX {
            8nat
        } else {
            16nat
        }),
{
    proof {
        reveal_strlit("1");
        lemma_field_shapes(0, number_value(value@));
    }
    let mut out = String::new();
    match parse_value(value) {
        Ok(v) => {
            if v <= SHORT_VALUE_MAX {
                push_bits(&mut out, v, 8);
                assert(out@ =~= value_field(v as nat));
            } else {
                out.append("1");
                push_bits(&mut out, v, 15);
                assert(out@ =~= value_field(v as nat));
            }
        },
        Err(_) => {
            assert(false);
        },
    }
    out
}

/// The place in `runs` of the run of the entry at position `at`, if it has
/// one.
fn find_run(tokens: &Vec<Vec<char>>, runs: &Vec<(usize, usize)>, at: usize) -> (found: Option<usize>)
    requires
        at < tokens@.len(),
        forall|k: int| 0 <= k < runs@.len() ==> (#[trigger] runs@[k]).0 < tokens@.len(),
    ensures
        match found {
            Some(j) => j < runs@.len() && tokens@[runs@[j as int].0 as int]@ == tokens@[at as int]@,
            None => forall|k: int|
                0 <= k < runs@.len() ==> tokens@[(#[trigger] runs@[k]).0 as int]@
                    != tokens@[at as int]@,
        },
{
    let mut j: usize = 0;
    while j < runs.len()
        invariant
            at < tokens@.len(),
            j <= runs@.len(),
            forall|k: int| 0 <= k < runs@.len() ==> (#[trigger] runs@[k]).0 < tokens@.len(),
            forall|k: int|
                0 <= k < j ==> tokens@[(#[trigger] runs@[k]).0 as int]@ != tokens@[at as int]@,
        decreases runs@.len() - j,
    {
        if same_chars(tokens[runs[j].0].as_slice(), tokens[at].as_slice()) {
            return Some(j);
        }
        j = j + 1;
    }
    None
}

/// Tallies the entries: for each distinct entry, in the order of first
/// occurrence, a position at which it stands and how often it occurs.
fn tally(tokens: &Vec<Vec<char>>) -> (runs: Vec<(usize, usize)>)
    ensures
        is_tally(views(tokens@), runs@),
{
    let ghost all = views(tokens@);
    let mut runs: Vec<(usize, usize)> = Vec::new();
    let mut i: usize = 0;
    assert(all.take(0) =~= Seq::<Seq<char>>::empty());
    while i < tokens.len()
        invariant
            all == views(tokens@),
            i <= tokens@.len(),
            is_tally(all.take(i as int), runs@),
        decreases tokens@.len() - i,
    {
        let ghost prefix = all.take(i as int);
        proof {
            assert(all.take(i + 1) =~= prefix.push(all[i as int]));
            assert forall|k: int| 0 <= k < runs@.len() implies (#[trigger] runs@[k]).0
                < tokens@.len() && prefix[runs@[k].0 as int] == tokens@[runs@[k].0 as int]@ by {}
        }
        match find_run(tokens, &runs, i) {
            Some(j) => {
                let (first, count) = runs[j];
                proof {
                    lemma_occurrences_contains(prefix, all[first as int]);
                    lemma_tally_seen(
                        prefix,
                        all[i as int],
                        runs@,
                        j as int,
                        runs@.update(j as int, (first, (count + 1) as usize)),
                    );
                }
                runs.set(j, (first, count + 1));
            },
            None => {
                proof {
                    lemma_tally_new(prefix, all[i as int], runs@);
                }
                runs.push((i, 1));
            },
        }
        i = i + 1;
    }
    assert(all.take(i as int) =~= all);
    runs
}

/// Writes one run: the field of the value that `token` denotes, with the
/// field of `count` in front of it unless `count` is 1.
fn run_to_string(token: &[char], count: usize) -> (out: String)
    requires
        valid_token(token@),
        count <= MAX_COUNT,
    ensures
        out@ == run_field(count as nat, number_value(token@)),
{
    if count == 1 {
        value_to_string(token)
    } else {
        let mut entry = count_to_string(count);
        let value = value_to_string(token);
        entry.append(value.as_str());
        entry
    }
}

/// What is left over of a length beyond a multiple of 6, after `more`
/// digits have joined it.
proof fn lemma_over_grows(len: nat, more: nat)
    ensures
        (len + more) % 6 == (len % 6 + more % 6) % 6,
{
}

/// Writes the runs of a tally, then the padding.
fn pack_runs(tokens: &Vec<Vec<char>>, runs: &Vec<(usize, usize)>) -> (out: String)
    requires
        is_tally(views(tokens@), runs@),
        valid_tokens(views(tokens@)),
        short_runs(views(tokens@)),
    ensures
        out@ == packed_tokens(views(tokens@)),
{
    let ghost all = views(tokens@);
    let ghost keys = distinct_tokens(all);
    let mut output = String::new();
    let mut over: usize = 0;
    let mut j: usize = 0;
    assert(keys.take(0) =~= Seq::<Seq<char>>::empty());
    while j < runs.len()
        invariant
            all == views(tokens@),
            keys == distinct_tokens(all),
            is_tally(all, runs@),
            valid_tokens(all),
            short_runs(all),
            j <= runs@.len(),
            output@ == runs_bits(all, keys.take(j as int)),
            over == output@.len() % 6,
        decreases runs@.len() - j,
    {
        let (first, count) = runs[j];
        let token = tokens[first].as_slice();
        proof {
            assert(token@ == all[first as int]);
            assert(valid_token(all[first as int]));
            assert(occurrences(all, all[first as int]) <= MAX_COUNT);
            lemma_runs_bits_step(all, keys, j as int);
        }
        let entry = run_to_string(token, count);
        proof {
            lemma_over_grows(output@.len(), entry@.len());
        }
        output.append(entry.as_str());
        over = (over + entry.as_str().unicode_len() % 6) % 6;
        j = j + 1;
    }
    assert(keys.take(j as int) =~= keys);
    let ghost bits = output@;
    assert(output@ =~= bits + zeros(0));
    let mut pad: usize = 0;
    while over != 0
        invariant
            output@ == bits + zeros(pad as nat),
            over == output@.len() % 6,
            pad + padding(output@.len()) == padding(bits.len()),
            pad < 6,
        decreases (6 - over) % 6,
    {
        proof {
            reveal_strlit("0");
        }
        output.append("0");
        pad = pad + 1;
        over = (over + 1) % 6;
        assert(output@ =~= bits + zeros(pad as nat));
    }
    output
}

/// Packs the list `s` into a digit string: one run for each distinct
/// entry, in the order in which the entries first occur, then zeros up to
/// a multiple of 6 digits. The empty list gives the empty string.
pub fn encode_to_bitwise_string(s: &str) -> (out: String)
    requires
        valid_input(s@),
    ensures
        out@ == packed(s@),
        is_bit_string(out@),
        out@.len() % 6 == 0,
        s@.len() == 0 ==> out@.len() == 0,
{
    let chars = to_chars(s);
    let tokens = split_tokens(chars.as_slice());
    let runs = tally(&tokens);
    proof {
        lemma_packed_shape(list_tokens(s@));
        if s@.len() == 0 {
            lemma_packed_empty(s@);
        }
    }
    pack_runs(&tokens, &runs)
}

/// Packs the list `s` as `encode_to_bitwise_string` does, after testing
/// that it can be packed.
pub fn try_encode_to_bitwise_string(s: &str) -> (res: Result<String, BitsEncodeError>)
    ensures
        match res {
            Ok(out) => valid_input(s@) && out@ == packed(s@) && is_bit_string(out@) && out@.len()
                % 6 == 0,
            Err(BitsEncodeError::InvalidValue) => !valid_tokens(list_tokens(s@)),
            Err(BitsEncodeError::RunTooLong) => valid_tokens(list_tokens(s@)) && !short_runs(
                list_tokens(s@),
            ),
        },
{
    let chars = to_chars(s);
    let tokens = split_tokens(chars.as_slice());
    let runs = tally(&tokens);
    let ghost all = views(tokens@);
    let ghost keys = distinct_tokens(all);
    proof {
        lemma_distinct_members(all);
        lemma_packed_shape(all);
    }
    let mut j: usize = 0;
    while j < runs.len()
        invariant
            all == views(tokens@),
            all == list_tokens(s@),
            keys == distinct_tokens(all),
            is_tally(all, runs@),
            j <= runs@.len(),
            forall|k: int| 0 <= k < j ==> valid_token(#[trigger] keys[k]),
        decreases runs@.len() - j,
    {
        let first: usize = runs[j].0;
        if parse_value(tokens[first].as_slice()).is_err() {
            assert(!valid_token(all[first as int]));
            return Err(BitsEncodeError::InvalidValue);
        }
        j = j + 1;
    }
    proof {
        assert forall|i: int| 0 <= i < all.len() implies valid_token(#[trigger] all[i]) by {
            assert(all.contains(all[i]));
            assert(keys.contains(all[i]));
        }
    }
    let mut j: usize = 0;
    while j < runs.len()
        invariant
            all == views(tokens@),
            all == list_tokens(s@),
            valid_tokens(all),
            keys == distinct_tokens(all),
            is_tally(all, runs@),
            j <= runs@.len(),
            forall|k: int| 0 <= k < j ==> occurrences(all, #[trigger] keys[k]) <= MAX_COUNT,
        decreases runs@.len() - j,
    {
        let (first, count) = runs[j];
        if count > MAX_COUNT {
            assert(occurrences(all, all[first as int]) > MAX_COUNT);
            return Err(BitsEncodeError::RunTooLong);
        }
        j = j + 1;
    }
    proof {
        assert forall|i: int| 0 <= i < all.len() implies occurrences(all, #[trigger] all[i])
            <= MAX_COUNT by {
            assert(all.contains(all[i]));
            assert(keys.contains(all[i]));
        }
    }
    Ok(pack_runs(&tokens, &runs))
}

} // verus!
