//! The textual side of the codec: comma-separated lists, surrounding
//! whitespace, and numbers written in decimal digits.

use vstd::prelude::*;
use vstd::slice::*;
use vstd::string::*;

verus! {

/// Whether `c` has the Unicode property `White_Space`.
pub open spec fn is_whitespace(c: char) -> bool {
    let u = c as u32;
    ||| (0x09 <= u && u <= 0x0D)
    ||| u == 0x20
    ||| u == 0x85
    ||| u == 0xA0
    ||| u == 0x1680
    ||| (0x2000 <= u && u <= 0x200A)
    ||| u == 0x2028
    ||| u == 0x2029
    ||| u == 0x202F
    ||| u == 0x205F
    ||| u == 0x3000
}

/// `s` without its leading whitespace.
pub open spec fn trim_start(s: Seq<char>) -> Seq<char>
    decreases s.len(),
{
    if s.len() > 0 && is_whitespace(s[0]) {
        trim_start(s.skip(1))
    } else {
        s
    }
}

/// `s` without its trailing whitespace.
pub open spec fn trim_end(s: Seq<char>) -> Seq<char>
    decreases s.len(),
{
    if s.len() > 0 && is_whitespace(s.last()) {
        trim_end(s.drop_last())
    } else {
        s
    }
}

/// `s` without its leading and trailing whitespace.
pub open spec fn trim(s: Seq<char>) -> Seq<char> {
    trim_end(trim_start(s))
}

/// The position of the leftmost comma of `s`, or the length of `s` where it
/// holds no comma.
pub open spec fn first_comma(s: Seq<char>) -> int
    decreases s.len(),
{
    if s.len() == 0 || s[0] == ',' {
        0
    } else {
        1 + first_comma(s.skip(1))
    }
}

/// The pieces of `s` between its commas. A comma at the very end closes the
/// last piece and opens no further one, so the empty string has no piece and
/// `"1,2,"` has two.
pub open spec fn split_list(s: Seq<char>) -> Seq<Seq<char>>
    decreases s.len(),
{
    if s.len() == 0 {
        Seq::empty()
    } else {
        let k = first_comma(s);
        if 0 <= k < s.len() {
            seq![s.take(k)] + split_list(s.skip(k + 1))
        } else {
            seq![s]
        }
    }
}

/// The entries of the list `s`: its pieces, each without the whitespace
/// around it.
pub open spec fn list_tokens(s: Seq<char>) -> Seq<Seq<char>> {
    split_list(s).map_values(|piece: Seq<char>| trim(piece))
}

/// Whether `c` is a decimal digit.
pub open spec fn is_digit(c: char) -> bool {
    '0' <= c && c <= '9'
}

/// The number that the decimal digit `c` denotes.
pub open spec fn digit_value(c: char) -> nat {
    (c as u32 - 48) as nat
}

/// The decimal digit that denotes `d`.
pub open spec fn digit_char(d: nat) -> char {
    (d + 48) as char
}

/// Whether every character of `s` is a decimal digit.
pub open spec fn is_digit_string(s: Seq<char>) -> bool {
    forall|i: int| 0 <= i < s.len() ==> is_digit(#[trigger] s[i])
}

/// The number that the decimal digits of `s` denote.
pub open spec fn decimal_value(s: Seq<char>) -> nat
    decreases s.len(),
{
    if s.len() == 0 {
        0
    } else {
        10 * decimal_value(s.drop_last()) + digit_value(s.last())
    }
}

/// `t` without the plus sign that a number may begin with.
pub open spec fn unsigned_part(t: Seq<char>) -> Seq<char> {
    if t.len() > 0 && t[0] == '+' {
        t.skip(1)
    } else {
        t
    }
}

/// Whether `t` is a number: at least one decimal digit, and nothing else
/// but an optional plus sign in front.
pub open spec fn is_number(t: Seq<char>) -> bool {
    unsigned_part(t).len() > 0 && is_digit_string(unsigned_part(t))
}

/// The value of the number `t`.
pub open spec fn number_value(t: Seq<char>) -> nat {
    decimal_value(unsigned_part(t))
}

/// The decimal digits of `n`, without leading zeros.
pub open spec fn decimal_digits(n: nat) -> Seq<char>
    decreases n,
{
    if n < 10 {
        seq![digit_char(n)]
    } else {
        decimal_digits(n / 10).push(digit_char(n % 10))
    }
}

/// The views of the vectors of `v`, in order.
pub open spec fn views(v: Seq<Vec<char>>) -> Seq<Seq<char>> {
    Seq::new(v.len(), |i: int| v[i]@)
}

/// A piece that ends at the first comma is the first piece of the list, and
/// the rest of the list follows the comma.
pub proof fn lemma_split_at_comma(s: Seq<char>, k: int)
    requires
        0 <= k < s.len(),
        s[k] == ',',
        forall|i: int| 0 <= i < k ==> s[i] != ',',
    ensures
        first_comma(s) == k,
        split_list(s) == seq![s.take(k)] + split_list(s.skip(k + 1)),
    decreases k,
{
    if k > 0 {
        let rest = s.skip(1);
        assert(rest[k - 1] == s[k]);
        assert forall|i: int| 0 <= i < k - 1 implies rest[i] != ',' by {
            assert(rest[i] == s[i + 1]);
        }
        lemma_split_at_comma(rest, k - 1);
    }
}

/// A string without a comma is a list of one piece, unless it is empty.
pub proof fn lemma_split_without_comma(s: Seq<char>)
    requires
        forall|i: int| 0 <= i < s.len() ==> s[i] != ',',
    ensures
        first_comma(s) == s.len(),
        s.len() > 0 ==> split_list(s) == seq![s],
        s.len() == 0 ==> split_list(s) == Seq::<Seq<char>>::empty(),
    decreases s.len(),
{
    if s.len() > 0 {
        let rest = s.skip(1);
        assert forall|i: int| 0 <= i < rest.len() implies rest[i] != ',' by {
            assert(rest[i] == s[i + 1]);
        }
        lemma_split_without_comma(rest);
    }
}

/// The first comma of a string is a comma, and no comma stands before it.
pub proof fn lemma_first_comma(s: Seq<char>)
    ensures
        0 <= first_comma(s) <= s.len(),
        forall|i: int| 0 <= i < first_comma(s) ==> s[i] != ',',
        first_comma(s) < s.len() ==> s[first_comma(s)] == ',',
    decreases s.len(),
{
    if s.len() > 0 && s[0] != ',' {
        let rest = s.skip(1);
        lemma_first_comma(rest);
        assert forall|i: int| 0 <= i < first_comma(s) implies s[i] != ',' by {
            if i > 0 {
                assert(rest[i - 1] == s[i]);
            }
        }
        if first_comma(s) < s.len() {
            assert(rest[first_comma(rest)] == s[first_comma(s)]);
        }
    }
}

/// A list that does not end in a comma grows by one piece where a comma
/// and a piece without commas are written behind it.
pub proof fn lemma_split_one_more(list: Seq<char>, piece: Seq<char>)
    requires
        list.len() > 0,
        list.last() != ',',
        piece.len() > 0,
        forall|i: int| 0 <= i < piece.len() ==> piece[i] != ',',
    ensures
        split_list(list + seq![','] + piece) == split_list(list).push(piece),
    decreases list.len(),
{
    let longer = list + seq![','] + piece;
    let k = first_comma(list);
    lemma_first_comma(list);
    assert(longer[k] == ',') by {
        if k < list.len() {
            assert(longer[k] == list[k]);
        }
    }
    assert forall|i: int| 0 <= i < k implies longer[i] != ',' by {
        assert(longer[i] == list[i]);
    }
    lemma_split_at_comma(longer, k);
    assert(longer.take(k) =~= list.take(k));
    if k < list.len() {
        let rest = list.skip(k + 1);
        assert(k < list.len() - 1) by {
            assert(list[list.len() - 1] != ',');
        }
        assert(rest.last() == list.last());
        assert(longer.skip(k + 1) =~= rest + seq![','] + piece);
        lemma_split_one_more(rest, piece);
        assert(split_list(longer) =~= split_list(list).push(piece));
    } else {
        assert(list.take(k) =~= list);
        assert(longer.skip(k + 1) =~= piece);
        lemma_split_without_comma(piece);
        assert(split_list(longer) =~= split_list(list).push(piece));
    }
}

/// A string that neither begins nor ends with whitespace is trimmed
/// already.
pub proof fn lemma_trim_nothing(s: Seq<char>)
    requires
        s.len() > 0 ==> !is_whitespace(s[0]) && !is_whitespace(s.last()),
    ensures
        trim(s) == s,
{
}

/// The digits of a prefix denote no more than the digits of the whole.
pub proof fn lemma_decimal_value_prefix(s: Seq<char>, k: int)
    requires
        0 <= k <= s.len(),
    ensures
        decimal_value(s.take(k)) <= decimal_value(s),
    decreases s.len() - k,
{
    if k < s.len() {
        assert(s.take(k + 1).drop_last() =~= s.take(k));
        lemma_decimal_value_prefix(s, k + 1);
    } else {
        assert(s.take(k) =~= s);
    }
}

/// The decimal digits of a number are a number, and its value is the number
/// they were written for.
pub proof fn lemma_value_of_decimal_digits(n: nat)
    ensures
        decimal_digits(n).len() > 0,
        is_digit_string(decimal_digits(n)),
        decimal_digits(n)[0] != '+',
        is_number(decimal_digits(n)),
        number_value(decimal_digits(n)) == n,
    decreases n,
{
    if n < 10 {
        let s = decimal_digits(n);
        assert(s.drop_last() =~= Seq::<char>::empty());
        assert(decimal_value(s.drop_last()) == 0);
    } else {
        lemma_value_of_decimal_digits(n / 10);
        let init = decimal_digits(n / 10);
        let s = decimal_digits(n);
        assert(s.drop_last() =~= init);
        assert(s[0] == init[0]);
        assert forall|i: int| 0 <= i < s.len() implies is_digit(#[trigger] s[i]) by {
            if i < init.len() {
                assert(s[i] == init[i]);
            }
        }
    }
}

/// The characters of `s`, in order.
pub fn to_chars(s: &str) -> (v: Vec<char>)
    ensures
        v@ == s@,
{
    let mut v: Vec<char> = Vec::new();
    for c in it: s.chars()
        invariant
            it.seq() == s@,
            v@ == it.seq().take(it.index()),
    {
        v.push(c);
    }
    v
}

/// Whether `c` has the Unicode property `White_Space`.
pub fn char_is_whitespace(c: char) -> (b: bool)
    ensures
        b == is_whitespace(c),
{
    let u: u32 = c as u32;
    (0x09 <= u && u <= 0x0D) || u == 0x20 || u == 0x85 || u == 0xA0 || u == 0x1680 || (0x2000 <= u
        && u <= 0x200A) || u == 0x2028 || u == 0x2029 || u == 0x202F || u == 0x205F || u == 0x3000
}

/// Whether `a` and `b` hold the same characters.
pub fn same_chars(a: &[char], b: &[char]) -> (same: bool)
    ensures
        same == (a@ == b@),
{
    if a.len() != b.len() {
        return false;
    }
    let n: usize = a.len();
    let mut i: usize = 0;
    while i < n
        invariant
            n == a@.len(),
            n == b@.len(),
            i <= n,
            a@.take(i as int) == b@.take(i as int),
        decreases n - i,
    {
        if a[i] != b[i] {
            return false;
        }
        assert(a@.take(i + 1) =~= a@.take(i as int).push(a@[i as int]));
        assert(b@.take(i + 1) =~= b@.take(i as int).push(b@[i as int]));
        i = i + 1;
    }
    assert(a@.take(n as int) =~= a@);
    assert(b@.take(n as int) =~= b@);
    true
}

/// The part of `s` between its leading and its trailing whitespace.
pub fn trim_slice<'a>(s: &'a [char]) -> (r: &'a [char])
    ensures
        r@ == trim(s@),
{
    let n: usize = s.len();
    let mut from: usize = 0;
    assert(s@.skip(0) =~= s@);
    while from < n && char_is_whitespace(s[from])
        invariant
            n == s@.len(),
            from <= n,
            trim_start(s@) == trim_start(s@.skip(from as int)),
        decreases n - from,
    {
        assert(s@.skip(from as int).skip(1) =~= s@.skip(from + 1));
        from = from + 1;
    }
    let mut to: usize = n;
    assert(s@.skip(from as int) =~= s@.subrange(from as int, to as int));
    while to > from && char_is_whitespace(s[to - 1])
        invariant
            n == s@.len(),
            from <= to <= n,
            trim_start(s@) == s@.skip(from as int),
            trim(s@) == trim_end(s@.subrange(from as int, to as int)),
        decreases to,
    {
        assert(s@.subrange(from as int, to as int).drop_last() =~= s@.subrange(
            from as int,
            to - 1,
        ));
        to = to - 1;
    }
    slice_subrange(s, from, to)
}

/// The entries of the list `s`: the pieces between its commas, each without
/// the whitespace around it.
pub fn split_tokens(s: &[char]) -> (tokens: Vec<Vec<char>>)
    ensures
        views(tokens@) == list_tokens(s@),
{
    let n: usize = s.len();
    let mut tokens: Vec<Vec<char>> = Vec::new();
    let mut start: usize = 0;
    let mut i: usize = 0;
    assert(s@.skip(0) =~= s@);
    assert(views(tokens@) =~= Seq::<Seq<char>>::empty());
    while i < n
        invariant
            n == s@.len(),
            start <= i <= n,
            forall|j: int| start <= j < i ==> s@[j] != ',',
            split_list(s@) == Seq::new(tokens@.len(), |k: int| split_list(s@)[k]) + split_list(
                s@.skip(start as int),
            ),
            split_list(s@).len() >= tokens@.len(),
            forall|k: int|
                0 <= k < tokens@.len() ==> (#[trigger] tokens@[k])@ == trim(split_list(s@)[k]),
        decreases n - i,
    {
        if s[i] == ',' {
            let piece = slice_subrange(s, start, i);
            let token = slice_to_vec(trim_slice(piece));
            proof {
                let rest = s@.skip(start as int);
                assert(rest.take(i - start) =~= s@.subrange(start as int, i as int));
                assert(rest.skip(i - start + 1) =~= s@.skip(i + 1));
                lemma_split_at_comma(rest, i - start);
                let done = Seq::new(tokens@.len(), |k: int| split_list(s@)[k]);
                assert(split_list(s@) == done + (seq![piece@] + split_list(s@.skip(i + 1))));
                assert(split_list(s@)[tokens@.len() as int] == piece@);
                assert(split_list(s@) =~= Seq::new(
                    tokens@.len() + 1,
                    |k: int| split_list(s@)[k],
                ) + split_list(s@.skip(i + 1)));
            }
            tokens.push(token);
            start = i + 1;
        }
        i = i + 1;
    }
    if start < n {
        let piece = slice_subrange(s, start, n);
        let token = slice_to_vec(trim_slice(piece));
        proof {
            let rest = s@.skip(start as int);
            assert(rest =~= piece@);
            lemma_split_without_comma(rest);
            let done = Seq::new(tokens@.len(), |k: int| split_list(s@)[k]);
            assert(split_list(s@) == done + seq![piece@]);
            assert(split_list(s@)[tokens@.len() as int] == piece@);
            assert(split_list(s@).len() == tokens@.len() + 1);
        }
        tokens.push(token);
    } else {
        proof {
            lemma_split_without_comma(s@.skip(start as int));
            assert(split_list(s@).len() == tokens@.len());
        }
    }
    assert(views(tokens@) =~= list_tokens(s@));
    tokens
}

/// Reads `t` as a number of at most `max`.
pub fn parse_number(t: &[char], max: u16) -> (r: Option<u16>)
    ensures
        r is Some <==> is_number(t@) && number_value(t@) <= max,
        r matches Some(v) ==> v == number_value(t@),
{
    let n: usize = t.len();
    let from: usize = if n > 0 && t[0] == '+' {
        1
    } else {
        0
    };
    if from == n {
        return None;
    }
    let ghost digits = unsigned_part(t@);
    assert(digits =~= t@.skip(from as int));
    let mut acc: u32 = 0;
    let mut i: usize = from;
    assert(digits.take(0) =~= Seq::<char>::empty());
    while i < n
        invariant
            n == t@.len(),
            from <= i <= n,
            digits == t@.skip(from as int),
            digits == unsigned_part(t@),
            is_digit_string(digits.take(i - from)),
            acc == decimal_value(digits.take(i - from)),
            acc <= max,
        decreases n - i,
    {
        let c: char = t[i];
        if c < '0' || c > '9' {
            assert(!is_digit(digits[i - from]));
            return None;
        }
        let d: u32 = c as u32 - 48;
        proof {
            assert(digits.take(i - from + 1).drop_last() =~= digits.take(i - from));
            assert(digits.take(i - from + 1).last() == c);
            assert forall|j: int| 0 <= j < i - from + 1 implies is_digit(
                #[trigger] digits.take(i - from + 1)[j],
            ) by {
                if j < i - from {
                    assert(digits.take(i - from + 1)[j] == digits.take(i - from)[j]);
                }
            }
        }
        acc = 10 * acc + d;
        if acc > max as u32 {
            proof {
                lemma_decimal_value_prefix(digits, i - from + 1);
            }
            return None;
        }
        i = i + 1;
    }
    assert(digits.take(n - from) =~= digits);
    Some(acc as u16)
}

/// Appends the decimal digits of `n`, without leading zeros.
pub fn push_decimal(out: &mut String, n: u16)
    ensures
        final(out)@ == old(out)@ + decimal_digits(n as nat),
    decreases n,
{
    if n >= 10 {
        push_decimal(out, n / 10);
    }
    let digits = "0123456789";
    proof {
        reveal_strlit("0123456789");
    }
    let d: usize = (n % 10) as usize;
    out.append(digits.substring_ascii(d, d + 1));
    assert(final(out)@ =~= old(out)@ + decimal_digits(n as nat));
}

} // verus!
