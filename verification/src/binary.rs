//! Binary digit strings: sequences of the characters `'0'` and `'1'`, written
//! with the most significant digit first.

use vstd::arithmetic::power2::*;
use vstd::prelude::*;
use vstd::slice::*;
use vstd::string::*;

verus! {

/// Whether `c` is one of the two binary digits.
pub open spec fn is_bit(c: char) -> bool {
    c == '0' || c == '1'
}

/// Whether every character of `s` is a binary digit.
pub open spec fn is_bit_string(s: Seq<char>) -> bool {
    forall|i: int| 0 <= i < s.len() ==> is_bit(#[trigger] s[i])
}

/// The number that the digits of `s` denote. A character other than `'1'`
/// counts as zero; callers that care test `is_bit_string` first.
pub open spec fn bits_value(s: Seq<char>) -> nat
    decreases s.len(),
{
    if s.len() == 0 {
        0
    } else {
        2 * bits_value(s.drop_last()) + if s.last() == '1' {
            1nat
        } else {
            0nat
        }
    }
}

/// The lowest `width` binary digits of `n`, zero-padded on the left.
pub open spec fn to_bits(n: nat, width: nat) -> Seq<char>
    decreases width,
{
    if width == 0 {
        Seq::empty()
    } else {
        to_bits(n / 2, (width - 1) as nat).push(
            if n % 2 == 1 {
                '1'
            } else {
                '0'
            },
        )
    }
}

/// The leftmost character of `s` that is not a binary digit, if there is one.
pub open spec fn first_non_bit(s: Seq<char>) -> Option<char>
    decreases s.len(),
{
    if s.len() == 0 {
        None
    } else {
        match first_non_bit(s.drop_last()) {
            Some(c) => Some(c),
            None => if is_bit(s.last()) {
                None
            } else {
                Some(s.last())
            },
        }
    }
}

/// `width` zeros.
pub open spec fn zeros(width: nat) -> Seq<char> {
    Seq::new(width, |i: int| '0')
}

/// `to_bits` yields exactly `width` characters, all of them binary digits.
pub proof fn lemma_to_bits_shape(n: nat, width: nat)
    ensures
        to_bits(n, width).len() == width,
        is_bit_string(to_bits(n, width)),
    decreases width,
{
    if width > 0 {
        lemma_to_bits_shape(n / 2, (width - 1) as nat);
    }
}

/// A digit string of length `k` denotes a number below two to the `k`.
pub proof fn lemma_bits_value_bound(s: Seq<char>)
    ensures
        bits_value(s) < pow2(s.len()),
    decreases s.len(),
{
    if s.len() == 0 {
        lemma2_to64();
    } else {
        lemma_bits_value_bound(s.drop_last());
        lemma_pow2_unfold(s.len());
    }
}

/// Writing a number that fits into `width` digits and reading the digits
/// back gives the number.
pub proof fn lemma_value_of_to_bits(n: nat, width: nat)
    requires
        n < pow2(width),
    ensures
        bits_value(to_bits(n, width)) == n,
    decreases width,
{
    if width == 0 {
        lemma2_to64();
    } else {
        lemma_pow2_unfold(width);
        lemma_value_of_to_bits(n / 2, (width - 1) as nat);
        let low = to_bits(n / 2, (width - 1) as nat);
        let bit = if n % 2 == 1 {
            '1'
        } else {
            '0'
        };
        assert(low.push(bit).drop_last() =~= low);
    }
}

/// Reading a binary digit string and writing the number with as many digits
/// gives the string.
pub proof fn lemma_to_bits_of_value(s: Seq<char>)
    requires
        is_bit_string(s),
    ensures
        to_bits(bits_value(s), s.len()) == s,
    decreases s.len(),
{
    if s.len() > 0 {
        let init = s.drop_last();
        lemma_to_bits_of_value(init);
        assert(bits_value(s) / 2 == bits_value(init));
        assert(is_bit(s.last()));
        assert(to_bits(bits_value(s), s.len()) =~= s);
    }
}

/// A number that fits into one digit less is written with a zero in front.
pub proof fn lemma_to_bits_leading_zero(n: nat, width: nat)
    requires
        width >= 1,
        n < pow2((width - 1) as nat),
    ensures
        to_bits(n, width).len() == width,
        to_bits(n, width)[0] == '0',
    decreases width,
{
    lemma_to_bits_shape(n, width);
    if width == 1 {
        lemma2_to64();
    } else {
        lemma_pow2_unfold((width - 1) as nat);
        lemma_to_bits_shape(n / 2, (width - 1) as nat);
        lemma_to_bits_leading_zero(n / 2, (width - 1) as nat);
    }
}

/// A string has no character that is not a binary digit exactly when it is
/// a binary digit string.
pub proof fn lemma_first_non_bit_none(s: Seq<char>)
    ensures
        first_non_bit(s) is None <==> is_bit_string(s),
        first_non_bit(s) matches Some(c) ==> !is_bit(c),
    decreases s.len(),
{
    if s.len() > 0 {
        let init = s.drop_last();
        lemma_first_non_bit_none(init);
        if is_bit_string(init) && is_bit(s.last()) {
            assert forall|i: int| 0 <= i < s.len() implies is_bit(#[trigger] s[i]) by {
                if i < s.len() - 1 {
                    assert(s[i] == init[i]);
                }
            }
        }
        if is_bit_string(s) {
            assert forall|i: int| 0 <= i < init.len() implies is_bit(#[trigger] init[i]) by {
                assert(init[i] == s[i]);
            }
        }
    }
}

/// Once a prefix holds a character that is not a binary digit, that
/// character is the first such character of the whole string.
pub proof fn lemma_first_non_bit_prefix(s: Seq<char>, k: int)
    requires
        0 <= k <= s.len(),
        first_non_bit(s.take(k)) is Some,
    ensures
        first_non_bit(s) == first_non_bit(s.take(k)),
    decreases s.len() - k,
{
    if k < s.len() {
        assert(s.take(k + 1).drop_last() =~= s.take(k));
        lemma_first_non_bit_prefix(s, k + 1);
    } else {
        assert(s.take(k) =~= s);
    }
}

/// Reads the digits of `s` as a number, or hands back the first character
/// that is not a binary digit.
pub fn read_bits(s: &[char]) -> (res: Result<u16, char>)
    requires
        s@.len() <= 16,
    ensures
        match res {
            Ok(v) => first_non_bit(s@) is None && v == bits_value(s@),
            Err(c) => first_non_bit(s@) == Some(c),
        },
{
    let n: usize = s.len();
    let mut acc: u32 = 0;
    let mut i: usize = 0;
    proof {
        lemma2_to64();
    }
    while i < n
        invariant
            n == s@.len(),
            n <= 16,
            i <= n,
            first_non_bit(s@.take(i as int)) is None,
            acc == bits_value(s@.take(i as int)),
        decreases n - i,
    {
        let c: char = s[i];
        proof {
            assert(s@.take(i + 1).drop_last() =~= s@.take(i as int));
            lemma_bits_value_bound(s@.take(i as int));
            lemma_pow2_strictly_increases(i as nat, 16);
            lemma2_to64();
        }
        if c == '1' {
            acc = 2 * acc + 1;
        } else if c == '0' {
            acc = 2 * acc;
        } else {
            proof {
                lemma_first_non_bit_prefix(s@, i + 1);
            }
            return Err(c);
        }
        i = i + 1;
    }
    proof {
        assert(s@.take(n as int) =~= s@);
        lemma_bits_value_bound(s@);
        if n < 16 {
            lemma_pow2_strictly_increases(n as nat, 16);
        }
    }
    Ok(acc as u16)
}

/// Appends the lowest `width` binary digits of `n` to `out`.
pub fn push_bits(out: &mut String, n: u16, width: usize)
    ensures
        final(out)@ == old(out)@ + to_bits(n as nat, width as nat),
    decreases width,
{
    if width > 0 {
        push_bits(out, n / 2, width - 1);
        proof {
            reveal_strlit("0");
            reveal_strlit("1");
        }
        if n % 2 == 1 {
            out.append("1");
        } else {
            out.append("0");
        }
        assert(final(out)@ =~= old(out)@ + to_bits(n as nat, width as nat));
    }
}

} // verus!
