//! What is packed can be unpacked: the proof that the bit packer loses
//! nothing but the order of the list.

use crate::binary::{
    lemma_first_non_bit_none, lemma_to_bits_leading_zero, lemma_to_bits_shape,
    lemma_value_of_to_bits, to_bits,
};
use crate::bit_representer::{
    after, count_field, distinct_tokens, lemma_distinct_members,
    lemma_field_shapes, lemma_occurrences_contains, lemma_runs_bits_shape, occurrences, packed,
    packed_tokens, padding, read_count, read_run, read_value, repeated, run_field, runs_bits,
    short_runs, starts_with_count, unpack_from, unpacked, valid_input, valid_token, valid_tokens,
    value_field, whole_bytes, BitsDecodeError, MAX_COUNT, MAX_VALUE,
};
use crate::text::{list_tokens, number_value};
use vstd::arithmetic::power2::*;
use vstd::multiset::*;
use vstd::prelude::*;
use vstd::seq_lib::*;

verus! {

/// The values of the entries `tokens`, in order.
pub open spec fn token_values(tokens: Seq<Seq<char>>) -> Seq<u16> {
    tokens.map_values(|t: Seq<char>| number_value(t) as u16)
}

/// The values of the list `s`, in order.
pub open spec fn listed_values(s: Seq<char>) -> Seq<u16> {
    token_values(list_tokens(s))
}

/// The values of the runs of `tokens` for the entries `keys`, in the order
/// of `keys`: the value of each entry as often as the entry occurs.
pub open spec fn runs_values(tokens: Seq<Seq<char>>, keys: Seq<Seq<char>>) -> Seq<u16>
    decreases keys.len(),
{
    if keys.len() == 0 {
        Seq::empty()
    } else {
        runs_values(tokens, keys.drop_last()) + repeated(
            number_value(keys.last()) as u16,
            occurrences(tokens, keys.last()),
        )
    }
}

/// The field of a value, read back, gives the value and the field's width,
/// whatever follows the field.
pub proof fn lemma_read_value_field(v: nat, rest: Seq<char>)
    requires
        v < 0x8000,
    ensures
        read_value(value_field(v) + rest) == Ok::<(u16, usize), BitsDecodeError>(
            (v as u16, value_field(v).len() as usize),
        ),
{
    let t = value_field(v) + rest;
    lemma2_to64();
    lemma_field_shapes(0, v);
    if v <= 127 {
        lemma_to_bits_leading_zero(v, 8);
        lemma_to_bits_shape(v, 8);
        assert(t[0] == to_bits(v, 8)[0]);
        assert(t.subrange(0, 8) =~= to_bits(v, 8));
        lemma_first_non_bit_none(to_bits(v, 8));
        lemma_value_of_to_bits(v, 8);
    } else {
        lemma_to_bits_shape(v, 15);
        assert(t[0] == '1');
        assert(t.subrange(1, 16) =~= to_bits(v, 15));
        lemma_first_non_bit_none(to_bits(v, 15));
        lemma_value_of_to_bits(v, 15);
    }
}

/// The field of a count, read back, gives the count and the field's width,
/// whatever follows the field.
pub proof fn lemma_read_count_field(c: nat, rest: Seq<char>)
    requires
        c <= MAX_COUNT,
    ensures
        starts_with_count(count_field(c) + rest),
        read_count(count_field(c) + rest) == Ok::<(u16, usize), BitsDecodeError>(
            (c as u16, count_field(c).len() as usize),
        ),
{
    let t = count_field(c) + rest;
    lemma2_to64();
    lemma_field_shapes(c, 0);
    assert(t[0] == '1' && t[1] == '1');
    if c <= 31 {
        lemma_to_bits_leading_zero(c, 6);
        lemma_to_bits_shape(c, 6);
        assert(t[2] == to_bits(c, 6)[0]);
        assert(t.subrange(2, 8) =~= to_bits(c, 6));
        lemma_first_non_bit_none(to_bits(c, 6));
        lemma_value_of_to_bits(c, 6);
    } else {
        lemma_to_bits_shape(c, 13);
        assert(t[2] == '1');
        assert(t.subrange(3, 16) =~= to_bits(c, 13));
        lemma_first_non_bit_none(to_bits(c, 13));
        lemma_value_of_to_bits(c, 13);
    }
}

/// The field of a value from 1 to `MAX_VALUE` does not begin as the field
/// of a count does.
pub proof fn lemma_value_field_is_no_count(v: nat, rest: Seq<char>)
    requires
        v <= MAX_VALUE,
    ensures
        !starts_with_count(value_field(v) + rest),
{
    let t = value_field(v) + rest;
    lemma2_to64();
    if v <= 127 {
        lemma_to_bits_leading_zero(v, 8);
        assert(t[0] == to_bits(v, 8)[0]);
    } else {
        lemma_to_bits_leading_zero(v, 15);
        assert(t[1] == to_bits(v, 15)[0]);
    }
}

/// The digits of a run, read back, give the run's count and value and the
/// number of its digits, whatever follows them.
pub proof fn lemma_read_run_field(count: nat, v: nat, rest: Seq<char>)
    requires
        1 <= count <= MAX_COUNT,
        v <= MAX_VALUE,
    ensures
        read_run(run_field(count, v) + rest) == Ok::<(u16, u16, usize), BitsDecodeError>(
            (count as u16, v as u16, run_field(count, v).len() as usize),
        ),
{
    let t = run_field(count, v) + rest;
    lemma_field_shapes(count, v);
    if count == 1 {
        lemma_value_field_is_no_count(v, rest);
        lemma_read_value_field(v, rest);
    } else {
        let behind = value_field(v) + rest;
        assert(t =~= count_field(count) + behind);
        lemma_read_count_field(count, behind);
        assert(t.skip(count_field(count).len() as int) =~= behind);
        lemma_read_value_field(v, rest);
    }
}

/// The digits of runs begin with the digits of the first run.
pub proof fn lemma_runs_bits_first(tokens: Seq<Seq<char>>, keys: Seq<Seq<char>>)
    requires
        keys.len() > 0,
    ensures
        runs_bits(tokens, keys) == run_field(occurrences(tokens, keys[0]), number_value(keys[0]))
            + runs_bits(tokens, keys.skip(1)),
    decreases keys.len(),
{
    let first = run_field(occurrences(tokens, keys[0]), number_value(keys[0]));
    let last = run_field(occurrences(tokens, keys.last()), number_value(keys.last()));
    if keys.len() == 1 {
        assert(keys.drop_last() =~= Seq::<Seq<char>>::empty());
        assert(keys.skip(1) =~= Seq::<Seq<char>>::empty());
        assert(runs_bits(tokens, keys) =~= first + runs_bits(tokens, keys.skip(1)));
    } else {
        lemma_runs_bits_first(tokens, keys.drop_last());
        assert(keys.drop_last().skip(1) =~= keys.skip(1).drop_last());
        assert(keys.drop_last()[0] == keys[0]);
        assert(keys.skip(1).last() == keys.last());
        assert(runs_bits(tokens, keys) =~= first + runs_bits(tokens, keys.skip(1)));
    }
}

/// The values of runs begin with the values of the first run.
pub proof fn lemma_runs_values_first(tokens: Seq<Seq<char>>, keys: Seq<Seq<char>>)
    requires
        keys.len() > 0,
    ensures
        runs_values(tokens, keys) == repeated(
            number_value(keys[0]) as u16,
            occurrences(tokens, keys[0]),
        ) + runs_values(tokens, keys.skip(1)),
    decreases keys.len(),
{
    let first = repeated(number_value(keys[0]) as u16, occurrences(tokens, keys[0]));
    if keys.len() == 1 {
        assert(keys.drop_last() =~= Seq::<Seq<char>>::empty());
        assert(keys.skip(1) =~= Seq::<Seq<char>>::empty());
        assert(runs_values(tokens, keys) =~= first + runs_values(tokens, keys.skip(1)));
    } else {
        lemma_runs_values_first(tokens, keys.drop_last());
        assert(keys.drop_last().skip(1) =~= keys.skip(1).drop_last());
        assert(keys.drop_last()[0] == keys[0]);
        assert(keys.skip(1).last() == keys.last());
        assert(runs_values(tokens, keys) =~= first + runs_values(tokens, keys.skip(1)));
    }
}

/// Whether each entry of `keys` can be packed and occurs in `tokens` at
/// least once and at most `MAX_COUNT` times.
pub open spec fn packable_keys(tokens: Seq<Seq<char>>, keys: Seq<Seq<char>>) -> bool {
    forall|k: int|
        0 <= k < keys.len() ==> valid_token(#[trigger] keys[k]) && 1 <= occurrences(
            tokens,
            keys[k],
        ) <= MAX_COUNT
}

/// Where `front + back` stands in a string from `pos` on, the string from
/// `pos` on is `front` and what follows it, and `back` stands behind `front`.
proof fn lemma_front_and_back(s: Seq<char>, pos: int, front: Seq<char>, back: Seq<char>)
    requires
        0 <= pos,
        pos + front.len() + back.len() <= s.len(),
        s.subrange(pos, pos + front.len() + back.len()) == front + back,
    ensures
        s.skip(pos) == front + s.skip(pos + front.len()),
        s.subrange(pos + front.len(), pos + front.len() + back.len()) == back,
{
    let whole = s.subrange(pos, pos + front.len() + back.len());
    let mid = pos + front.len();
    assert forall|i: int| 0 <= i < front.len() implies s.skip(pos)[i] == front[i] by {
        assert(whole[i] == (front + back)[i]);
    }
    assert(s.skip(pos) =~= front + s.skip(mid));
    assert forall|i: int| 0 <= i < back.len() implies s.subrange(mid, mid + back.len())[i]
        == back[i] by {
        assert(whole[front.len() + i] == (front + back)[front.len() + i]);
    }
    assert(s.subrange(mid, mid + back.len()) =~= back);
}

/// Where the digits of runs stand in a string from `pos` on, reading from
/// `pos` up to their end gives the values of the runs.
pub proof fn lemma_unpack_runs(
    tokens: Seq<Seq<char>>,
    keys: Seq<Seq<char>>,
    s: Seq<char>,
    pos: int,
)
    requires
        packable_keys(tokens, keys),
        0 <= pos,
        pos + runs_bits(tokens, keys).len() <= s.len(),
        s.subrange(pos, pos + runs_bits(tokens, keys).len()) == runs_bits(tokens, keys),
    ensures
        unpack_from(s, pos, pos + runs_bits(tokens, keys).len()) == Ok::<
            Seq<u16>,
            BitsDecodeError,
        >(runs_values(tokens, keys)),
    decreases keys.len(),
{
    let bits = runs_bits(tokens, keys);
    let end = pos + bits.len();
    if keys.len() > 0 {
        let count = occurrences(tokens, keys[0]);
        let v = number_value(keys[0]);
        let run = run_field(count, v);
        let later = keys.skip(1);
        let mid = pos + run.len();
        lemma_runs_bits_first(tokens, keys);
        lemma_runs_values_first(tokens, keys);
        lemma_field_shapes(count, v);
        assert(valid_token(keys[0]));
        lemma_front_and_back(s, pos, run, runs_bits(tokens, later));
        lemma_read_run_field(count, v, s.skip(mid));
        assert forall|k: int| 0 <= k < later.len() implies valid_token(#[trigger] later[k]) && 1
            <= occurrences(tokens, later[k]) <= MAX_COUNT by {
            assert(later[k] == keys[k + 1]);
        }
        lemma_unpack_runs(tokens, later, s, mid);
        assert(unpack_from(s, pos, end) == after(
            repeated(v as u16, count),
            unpack_from(s, mid, end),
        ));
    }
}

/// A list that grows by an entry that is none of `keys` keeps the values
/// of the runs for `keys`.
pub proof fn lemma_runs_values_other(tokens: Seq<Seq<char>>, x: Seq<char>, keys: Seq<Seq<char>>)
    requires
        !keys.contains(x),
    ensures
        runs_values(tokens.push(x), keys) == runs_values(tokens, keys),
    decreases keys.len(),
{
    if keys.len() > 0 {
        let init = keys.drop_last();
        assert(keys[keys.len() - 1] != x);
        assert forall|k: int| 0 <= k < init.len() implies init[k] != x by {
            assert(keys[k] != x);
        }
        lemma_runs_values_other(tokens, x, init);
        assert(tokens.push(x).drop_last() =~= tokens);
    }
}

/// A list that grows by an entry that is one of `keys` adds the value of
/// that entry once to the values of the runs for `keys`.
pub proof fn lemma_runs_values_same(tokens: Seq<Seq<char>>, x: Seq<char>, keys: Seq<Seq<char>>)
    requires
        keys.contains(x),
        keys.no_duplicates(),
    ensures
        runs_values(tokens.push(x), keys).to_multiset() == runs_values(
            tokens,
            keys,
        ).to_multiset().insert(number_value(x) as u16),
    decreases keys.len(),
{
    broadcast use group_multiset_axioms;

    let more = tokens.push(x);
    let init = keys.drop_last();
    let last = keys.last();
    let v = number_value(last) as u16;
    assert(more.drop_last() =~= tokens);
    assert forall|i: int, j: int| 0 <= i < init.len() && 0 <= j < init.len() && i != j implies init[i]
        != init[j] by {
        assert(keys[i] != keys[j]);
    }
    lemma_multiset_commutative(runs_values(more, init), repeated(v, occurrences(more, last)));
    lemma_multiset_commutative(runs_values(tokens, init), repeated(v, occurrences(tokens, last)));
    if last == x {
        assert(!init.contains(x)) by {
            if init.contains(x) {
                let k = choose|k: int| 0 <= k < init.len() && init[k] == x;
                assert(keys[k] == keys[keys.len() - 1]);
            }
        }
        lemma_runs_values_other(tokens, x, init);
        let before = repeated(v, occurrences(tokens, last));
        assert(repeated(v, occurrences(more, last)) =~= before.push(v));
        to_multiset_build(before, v);
        assert(runs_values(more, keys).to_multiset() =~= runs_values(
            tokens,
            keys,
        ).to_multiset().insert(v));
    } else {
        let k = choose|k: int| 0 <= k < keys.len() && keys[k] == x;
        assert(init[k] == x);
        lemma_runs_values_same(tokens, x, init);
        assert(runs_values(more, keys).to_multiset() =~= runs_values(
            tokens,
            keys,
        ).to_multiset().insert(number_value(x) as u16));
    }
}

/// The values of the runs of a list are the values of its entries, each as
/// often as the list holds it.
pub proof fn lemma_runs_values_multiset(tokens: Seq<Seq<char>>)
    ensures
        runs_values(tokens, distinct_tokens(tokens)).to_multiset() == token_values(
            tokens,
        ).to_multiset(),
    decreases tokens.len(),
{
    broadcast use group_multiset_axioms;

    if tokens.len() == 0 {
        assert(token_values(tokens) =~= Seq::<u16>::empty());
    } else {
        let init = tokens.drop_last();
        let x = tokens.last();
        let v = number_value(x) as u16;
        let keys = distinct_tokens(init);
        lemma_runs_values_multiset(init);
        lemma_distinct_members(init);
        assert(tokens =~= init.push(x));
        assert(token_values(tokens) =~= token_values(init).push(v));
        to_multiset_build(token_values(init), v);
        if init.contains(x) {
            assert(keys.contains(x));
            lemma_runs_values_same(init, x, keys);
        } else {
            assert(!keys.contains(x));
            lemma_runs_values_other(init, x, keys);
            lemma_occurrences_contains(init, x);
            assert(keys.push(x).drop_last() =~= keys);
            assert(repeated(v, 1) =~= Seq::<u16>::empty().push(v));
            assert(runs_values(tokens, keys.push(x)) =~= runs_values(init, keys).push(v));
            to_multiset_build(runs_values(init, keys), v);
        }
    }
}

/// The padding of a packed list is shorter than a group of 8 digits, so
/// the reader's whole groups of 8 are the digits of the runs.
pub proof fn lemma_padding_is_dropped(len: nat)
    requires
        len % 8 == 0,
    ensures
        padding(len) < 8,
        whole_bytes(len + padding(len)) == len,
{
}

/// Unpacking the packed entries gives the values of their runs.
pub proof fn lemma_unpack_packed_tokens(tokens: Seq<Seq<char>>)
    requires
        valid_tokens(tokens),
        short_runs(tokens),
    ensures
        unpacked(packed_tokens(tokens)) == Ok::<Seq<u16>, BitsDecodeError>(
            runs_values(tokens, distinct_tokens(tokens)),
        ),
{
    let keys = distinct_tokens(tokens);
    let bits = runs_bits(tokens, keys);
    let s = packed_tokens(tokens);
    lemma_distinct_members(tokens);
    lemma_runs_bits_shape(tokens, keys);
    lemma_padding_is_dropped(bits.len());
    assert forall|k: int| 0 <= k < keys.len() implies valid_token(#[trigger] keys[k]) && 1
        <= occurrences(tokens, keys[k]) <= MAX_COUNT by {
        assert(keys.contains(keys[k]));
        let i = choose|i: int| 0 <= i < tokens.len() && tokens[i] == keys[k];
        assert(valid_token(tokens[i]));
        assert(occurrences(tokens, tokens[i]) <= MAX_COUNT);
        lemma_occurrences_contains(tokens, keys[k]);
    }
    if keys.len() == 0 {
        assert(bits.len() == 0);
        assert(s.len() == 0);
    } else {
        assert(s.len() == bits.len() + padding(bits.len()));
        assert(s.subrange(0, bits.len() as int) =~= bits);
        lemma_unpack_runs(tokens, keys, s, 0);
    }
}

/// Unpacking what was packed gives the values of the list, each as often
/// as the list holds it: nothing but their order is lost.
pub proof fn lemma_unpack_pack(s: Seq<char>)
    requires
        valid_input(s),
    ensures
        unpacked(packed(s)) is Ok,
        unpacked(packed(s))->Ok_0.to_multiset() == listed_values(s).to_multiset(),
        unpacked(packed(s))->Ok_0.len() == listed_values(s).len(),
{
    let tokens = list_tokens(s);
    lemma_unpack_packed_tokens(tokens);
    lemma_runs_values_multiset(tokens);
    runs_values(tokens, distinct_tokens(tokens)).to_multiset_ensures();
    token_values(tokens).to_multiset_ensures();
}

} // verus!
