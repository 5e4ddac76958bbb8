//! Reading numbers out of text, as `str::parse` does.
use vstd::prelude::*;

verus! {

pub open spec fn is_digit(c: char) -> bool {
    '0' <= c && c <= '9'
}

pub open spec fn all_digits(s: Seq<char>) -> bool {
    forall|i: int| 0 <= i < s.len() ==> is_digit(#[trigger] s[i])
}

/// Value of a run of decimal digits.
pub open spec fn digits_value(s: Seq<char>) -> int
    decreases s.len(),
{
    if s.len() == 0 {
        0
    } else {
        digits_value(s.drop_last()) * 10 + (s.last() as int - '0' as int)
    }
}

/// What `str::parse::<u32>` accepts: an optional `+` and at least one
/// decimal digit, with a value that fits.
pub open spec fn parse_u32_spec(s: Seq<char>) -> Option<u32> {
    let d = if s.len() > 0 && s[0] == '+' { s.drop_first() } else { s };
    if d.len() > 0 && all_digits(d) && digits_value(d) <= u32::MAX {
        Some(digits_value(d) as u32)
    } else {
        None
    }
}

/// What `str::parse::<i32>` accepts: an optional `+` or `-` and at least one
/// decimal digit, with a (signed) value that fits.
pub open spec fn parse_i32_spec(s: Seq<char>) -> Option<i32> {
    let neg = s.len() > 0 && s[0] == '-';
    let d = if s.len() > 0 && (s[0] == '+' || s[0] == '-') { s.drop_first() } else { s };
    let v = if neg { -digits_value(d) } else { digits_value(d) };
    if d.len() > 0 && all_digits(d) && i32::MIN <= v <= i32::MAX {
        Some(v as i32)
    } else {
        None
    }
}

/// Calls `str::parse::<u32>`. Claimed: `Some` exactly on an optional `+`
/// followed by decimal digits whose value fits in `u32`, with that value.
#[verifier::external_body]
pub(crate) fn parse_u32(s: &str) -> (r: Option<u32>)
    ensures
        r == parse_u32_spec(s@),
{
    s.parse::<u32>().ok()
}

/// Calls `str::parse::<i32>`. Claimed: `Some` exactly on an optional sign
/// followed by decimal digits whose signed value fits in `i32`, with that value.
#[verifier::external_body]
pub(crate) fn parse_i32(s: &str) -> (r: Option<i32>)
    ensures
        r == parse_i32_spec(s@),
{
    s.parse::<i32>().ok()
}

/// Number of occurrences of `c` in `s`.
pub open spec fn count_char(s: Seq<char>, c: char) -> nat
    decreases s.len(),
{
    if s.len() == 0 {
        0
    } else {
        count_char(s.drop_last(), c) + if s.last() == c { 1nat } else { 0nat }
    }
}

/// Index of the first `c` in `s`, or `s.len()` when there is none.
pub open spec fn first_index_of(s: Seq<char>, c: char) -> int
    decreases s.len(),
{
    if s.len() == 0 {
        0
    } else {
        let p = first_index_of(s.drop_last(), c);
        if p < s.len() - 1 {
            p
        } else if s.last() == c {
            s.len() - 1
        } else {
            s.len() as int
        }
    }
}

pub(crate) proof fn lemma_first_index_bounds(s: Seq<char>, c: char)
    ensures
        0 <= first_index_of(s, c) <= s.len(),
        first_index_of(s, c) < s.len() ==> s[first_index_of(s, c)] == c,
        first_index_of(s, c) < s.len() <==> count_char(s, c) > 0,
    decreases s.len(),
{
    if s.len() > 0 {
        lemma_first_index_bounds(s.drop_last(), c);
    }
}

/// What `str::to_lowercase` gives for a text.
pub uninterp spec fn lowercase(s: Seq<char>) -> Seq<char>;

/// The text holds only ASCII characters.
pub open spec fn is_ascii_text(s: Seq<char>) -> bool {
    forall|i: int| 0 <= i < s.len() ==> ((#[trigger] s[i]) as u32) < 128
}

/// ASCII lowercasing: `A` to `Z` become `a` to `z`; every other character stays.
pub open spec fn ascii_lowercase(s: Seq<char>) -> Seq<char> {
    Seq::new(s.len(), |i: int| if 'A' <= s[i] && s[i] <= 'Z' { ((s[i] as u32) + 32) as char } else { s[i] })
}

/// The lowercase form of a text, as `str::to_lowercase` gives it: the ASCII
/// lowercase of ASCII text, and `lowercase` of any other.
pub open spec fn lowercased(s: Seq<char>) -> Seq<char> {
    if is_ascii_text(s) {
        ascii_lowercase(s)
    } else {
        lowercase(s)
    }
}

/// Calls `str::to_lowercase`. Claimed: the result depends on the text alone,
/// and is named `lowercase`; on ASCII text it is the ASCII lowercase, since
/// Unicode's lowercase mapping, which the method follows, moves only `A` to
/// `Z` among ASCII characters. What it gives beyond ASCII is not stated.
#[verifier::external_body]
pub(crate) fn to_lowercase(s: &str) -> (r: String)
    ensures
        r@ == lowercase(s@),
        is_ascii_text(s@) ==> r@ == ascii_lowercase(s@),
{
    s.to_lowercase()
}

/// The character of the decimal digit `d`.
pub open spec fn digit_char(d: int) -> char {
    (d + 48) as char
}

/// Decimal digits of `n`, without leading zeros.
pub open spec fn nat_decimal(n: nat) -> Seq<char>
    decreases n,
{
    if n < 10 {
        seq![digit_char(n as int)]
    } else {
        nat_decimal(n / 10).push(digit_char((n % 10) as int))
    }
}

/// How `i32` displays: a `-` for negative values, then the decimal digits.
pub open spec fn i32_decimal(v: i32) -> Seq<char> {
    if v < 0 {
        seq!['-'] + nat_decimal((-(v as int)) as nat)
    } else {
        nat_decimal(v as nat)
    }
}

/// Calls `i32::to_string`, which renders through `Display`. Claimed: the
/// text is `i32_decimal(v)`: a `-` for negative values, then the decimal
/// digits without leading zeros.
#[verifier::external_body]
pub(crate) fn i32_text(v: i32) -> (r: String)
    ensures
        r@ == i32_decimal(v),
{
    v.to_string()
}

/// How `bool` displays.
pub open spec fn bool_text(b: bool) -> Seq<char> {
    if b {
        "true"@
    } else {
        "false"@
    }
}

/// Decimal digits of `n`, padded with a leading zero to at least two, as
/// the format `{:02}` writes an unsigned number.
pub open spec fn two_digit_decimal(n: nat) -> Seq<char> {
    if n < 10 {
        seq!['0'] + nat_decimal(n)
    } else {
        nat_decimal(n)
    }
}

pub(crate) proof fn lemma_nat_decimal(n: nat)
    ensures
        nat_decimal(n).len() >= 1,
        all_digits(nat_decimal(n)),
        digits_value(nat_decimal(n)) == n,
    decreases n,
{
    let s = nat_decimal(n);
    assert(digits_value(Seq::<char>::empty()) == 0);
    if n < 10 {
        assert(s.drop_last() =~= Seq::<char>::empty());
        assert(s.last() as int == n + 48);
    } else {
        lemma_nat_decimal(n / 10);
        assert(s.drop_last() =~= nat_decimal(n / 10));
        assert(s.last() as int == n % 10 + 48);
        assert(digits_value(s) == (n / 10) * 10 + n % 10);
        assert forall|i: int| 0 <= i < s.len() implies is_digit(#[trigger] s[i]) by {
            if i < s.len() - 1 {
                assert(s[i] == nat_decimal(n / 10)[i]);
            }
        }
    }
}

/// A leading zero does not change the value of a run of digits.
pub(crate) proof fn lemma_leading_zero(s: Seq<char>)
    ensures
        digits_value(seq!['0'] + s) == digits_value(s),
    decreases s.len(),
{
    let t = seq!['0'] + s;
    assert(digits_value(Seq::<char>::empty()) == 0);
    if s.len() == 0 {
        assert(t.drop_last() =~= Seq::<char>::empty());
        assert(t.last() == '0');
    } else {
        lemma_leading_zero(s.drop_last());
        assert(t.drop_last() =~= seq!['0'] + s.drop_last());
        assert(t.last() == s.last());
    }
}

pub(crate) proof fn lemma_count_char_concat(a: Seq<char>, b: Seq<char>, c: char)
    ensures
        count_char(a + b, c) == count_char(a, c) + count_char(b, c),
    decreases b.len(),
{
    if b.len() == 0 {
        assert(a + b =~= a);
    } else {
        lemma_count_char_concat(a, b.drop_last(), c);
        assert((a + b).drop_last() =~= a + b.drop_last());
        assert((a + b).last() == b.last());
    }
}

/// A run of digits holds no other character.
pub(crate) proof fn lemma_count_char_digits(s: Seq<char>, c: char)
    requires
        all_digits(s),
        !is_digit(c),
    ensures
        count_char(s, c) == 0,
    decreases s.len(),
{
    if s.len() > 0 {
        assert(all_digits(s.drop_last())) by {
            assert forall|i: int| 0 <= i < s.drop_last().len() implies is_digit(#[trigger] s.drop_last()[i]) by {
                assert(s.drop_last()[i] == s[i]);
            }
        }
        lemma_count_char_digits(s.drop_last(), c);
        assert(is_digit(s[s.len() - 1]));
    }
}

/// Text that extends `s` keeps the first `c` of `s`.
pub(crate) proof fn lemma_first_index_extend(s: Seq<char>, t: Seq<char>, c: char)
    requires
        first_index_of(s, c) < s.len(),
    ensures
        first_index_of(s + t, c) == first_index_of(s, c),
    decreases t.len(),
{
    if t.len() == 0 {
        assert(s + t =~= s);
    } else {
        lemma_first_index_extend(s, t.drop_last(), c);
        assert((s + t).drop_last() =~= s + t.drop_last());
    }
}

/// In `a`, then `c`, then `b`, with no `c` in `a`, the first `c` stands right after `a`.
pub(crate) proof fn lemma_first_index_after(a: Seq<char>, b: Seq<char>, c: char)
    requires
        count_char(a, c) == 0,
    ensures
        first_index_of(a + seq![c] + b, c) == a.len(),
{
    lemma_first_index_bounds(a, c);
    let s = a + seq![c];
    assert(s.drop_last() =~= a);
    assert(first_index_of(s, c) == a.len());
    lemma_first_index_extend(s, b, c);
}

} // verus!
