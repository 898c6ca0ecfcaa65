//! The `WIDTHxHEIGHT` argument of the turntable renderer, e.g. `512x512`:
//! split at the first `x` or `X`, each side an unsigned 32-bit decimal
//! number with an optional leading `+`.
use vstd::prelude::*;
use vstd::string::*;

verus! {

pub open spec fn is_digit(c: char) -> bool {
    '0' <= c && c <= '9'
}

/// The number that the decimal digits `d` spell.
pub open spec fn decimal_value(d: Seq<char>) -> int
    decreases d.len(),
{
    if d.len() == 0 {
        0
    } else {
        decimal_value(d.drop_last()) * 10 + (d.last() as int - '0' as int)
    }
}

/// `s` without its leading `+`, if it has one.
pub open spec fn unsigned_digits(s: Seq<char>) -> Seq<char> {
    if s.len() > 0 && s[0] == '+' {
        s.drop_first()
    } else {
        s
    }
}

/// The value of a nonempty run of decimal digits that fits in a `u32`.
pub open spec fn digits_to_u32(d: Seq<char>) -> Option<u32> {
    if d.len() > 0 && (forall|i: int| 0 <= i < d.len() ==> is_digit(#[trigger] d[i]))
        && decimal_value(d) <= u32::MAX {
        Some(decimal_value(d) as u32)
    } else {
        None
    }
}

/// What parsing `s` as a `u32` gives: an optional `+`, then at least one
/// decimal digit and nothing else, with a value that fits.
pub open spec fn parse_u32_spec(s: Seq<char>) -> Option<u32> {
    digits_to_u32(unsigned_digits(s))
}

pub open spec fn is_size_separator(c: char) -> bool {
    c == 'x' || c == 'X'
}

/// Index of the first separator in `s`, or -1 when there is none.
pub open spec fn first_separator(s: Seq<char>) -> int
    decreases s.len(),
{
    if s.len() == 0 {
        -1
    } else if is_size_separator(s[0]) {
        0
    } else {
        let r = first_separator(s.drop_first());
        if r < 0 {
            -1
        } else {
            r + 1
        }
    }
}

/// What the size argument `s` denotes.
pub open spec fn parse_size_spec(s: Seq<char>) -> Option<(u32, u32)> {
    let i = first_separator(s);
    if i < 0 {
        None
    } else {
        match (parse_u32_spec(s.take(i)), parse_u32_spec(s.skip(i + 1))) {
            (Some(w), Some(h)) => Some((w, h)),
            _ => None,
        }
    }
}

proof fn lemma_first_separator(s: Seq<char>, i: int)
    requires
        0 <= i <= s.len(),
        forall|j: int| 0 <= j < i ==> !is_size_separator(#[trigger] s[j]),
    ensures
        i < s.len() && is_size_separator(s[i]) ==> first_separator(s) == i,
        i == s.len() ==> first_separator(s) == -1,
    decreases i,
{
    if i > 0 {
        assert forall|j: int| 0 <= j < i - 1 implies !is_size_separator(
            #[trigger] s.drop_first()[j],
        ) by {
            assert(s.drop_first()[j] == s[j + 1]);
        }
        lemma_first_separator(s.drop_first(), i - 1);
    }
}

/// Parses `cs[lo..hi]` as a `u32`.
fn parse_u32_range(cs: &Vec<char>, lo: usize, hi: usize) -> (r: Option<u32>)
    requires
        lo <= hi <= cs@.len(),
    ensures
        r == parse_u32_spec(cs@.subrange(lo as int, hi as int)),
{
    let ghost s = cs@.subrange(lo as int, hi as int);
    let mut start = lo;
    if start < hi && cs[start] == '+' {
        start = start + 1;
    }
    let ghost d = cs@.subrange(start as int, hi as int);
    proof {
        if lo < hi && cs@[lo as int] == '+' {
            assert(d =~= s.drop_first());
        } else {
            assert(d =~= s);
        }
    }
    if start == hi {
        return None;
    }
    let mut value: u64 = 0;
    let mut i = start;
    while i < hi
        invariant
            start <= i <= hi,
            hi <= cs@.len(),
            d == cs@.subrange(start as int, hi as int),
            s == cs@.subrange(lo as int, hi as int),
            d == unsigned_digits(s),
            d.len() > 0,
            forall|j: int| start <= j < i ==> is_digit(#[trigger] cs@[j]),
            value == decimal_value(cs@.subrange(start as int, i as int)),
            value <= u32::MAX,
        decreases hi - i,
    {
        let c = cs[i];
        proof {
            assert(cs@.subrange(start as int, i + 1).drop_last() =~= cs@.subrange(
                start as int,
                i as int,
            ));
        }
        if !('0' <= c && c <= '9') {
            proof {
                assert(d[i - start] == c);
                assert(!is_digit(d[i - start]));
                assert(!(forall|j: int| 0 <= j < d.len() ==> is_digit(#[trigger] d[j])));
                assert(digits_to_u32(d) is None);
            }
            return None;
        }
        let digit = (c as u32 - '0' as u32) as u64;
        value = value * 10 + digit;
        if value > 0xffff_ffff {
            proof {
                let pre = cs@.subrange(start as int, i + 1);
                assert(d.take(i - start + 1) =~= pre);
                assert(pre.last() == c);
                assert(decimal_value(pre) == value);
                if forall|j: int| 0 <= j < d.len() ==> is_digit(#[trigger] d[j]) {
                    lemma_decimal_grows(d, (i - start + 1) as int);
                    assert(decimal_value(d) > u32::MAX);
                }
                assert(digits_to_u32(d) is None);
            }
            return None;
        }
        i = i + 1;
    }
    proof {
        assert(cs@.subrange(start as int, hi as int) =~= d);
        assert forall|j: int| 0 <= j < d.len() implies is_digit(#[trigger] d[j]) by {
            assert(d[j] == cs@[start + j]);
        }
    }
    Some(value as u32)
}

proof fn lemma_decimal_grows(d: Seq<char>, k: int)
    requires
        0 <= k <= d.len(),
        forall|j: int| 0 <= j < d.len() ==> is_digit(#[trigger] d[j]),
    ensures
        decimal_value(d.take(k)) <= decimal_value(d),
    decreases d.len() - k,
{
    if k < d.len() {
        lemma_decimal_grows(d, k + 1);
        assert(d.take(k + 1).drop_last() =~= d.take(k));
        lemma_decimal_nonneg(d.take(k));
    } else {
        assert(d.take(k) =~= d);
    }
}

proof fn lemma_decimal_nonneg(d: Seq<char>)
    requires
        forall|j: int| 0 <= j < d.len() ==> is_digit(#[trigger] d[j]),
    ensures
        decimal_value(d) >= 0,
    decreases d.len(),
{
    if d.len() > 0 {
        assert forall|j: int| 0 <= j < d.drop_last().len() implies is_digit(#[trigger] d.drop_last()[j]) by {
            assert(d.drop_last()[j] == d[j]);
        }
        lemma_decimal_nonneg(d.drop_last());
        assert(is_digit(d[d.len() - 1]));
    }
}

/// Parses a `WIDTHxHEIGHT` size argument.
pub fn parse_size(s: &str) -> (r: Option<(u32, u32)>)
    ensures
        r == parse_size_spec(s@),
{
    let n = s.unicode_len();
    let mut cs: Vec<char> = Vec::new();
    let mut k: usize = 0;
    while k < n
        invariant
            n == s@.len(),
            k <= n,
            cs@ == s@.take(k as int),
        decreases n - k,
    {
        cs.push(s.get_char(k));
        k = k + 1;
        proof {
            assert(cs@ =~= s@.take(k as int));
        }
    }
    proof {
        assert(cs@ =~= s@);
    }
    let mut i: usize = 0;
    while i < n && !(cs[i] == 'x' || cs[i] == 'X')
        invariant
            n == cs@.len(),
            i <= n,
            forall|j: int| 0 <= j < i ==> !is_size_separator(#[trigger] cs@[j]),
        decreases n - i,
    {
        i = i + 1;
    }
    proof {
        lemma_first_separator(cs@, i as int);
    }
    if i == n {
        return None;
    }
    let w = parse_u32_range(&cs, 0, i);
    let h = parse_u32_range(&cs, i + 1, n);
    proof {
        assert(cs@.subrange(0, i as int) =~= cs@.take(i as int));
        assert(cs@.subrange(i + 1, n as int) =~= cs@.skip(i + 1));
    }
    match (w, h) {
        (Some(w), Some(h)) => Some((w, h)),
        _ => None,
    }
}

/// Size-argument law: decimal digits, an `x` or `X`, and decimal digits
/// (both numbers fitting in 32 bits) denote the two numbers, width first;
/// a text without `x` or `X` denotes no size.
pub proof fn lemma_size_of_digits(d1: Seq<char>, sep: char, d2: Seq<char>)
    requires
        d1.len() > 0,
        d2.len() > 0,
        forall|i: int| 0 <= i < d1.len() ==> '0' <= #[trigger] d1[i] <= '9',
        forall|i: int| 0 <= i < d2.len() ==> '0' <= #[trigger] d2[i] <= '9',
        sep == 'x' || sep == 'X',
        decimal_value(d1) <= u32::MAX,
        decimal_value(d2) <= u32::MAX,
    ensures
        parse_size_spec(d1 + seq![sep] + d2) == Some((decimal_value(d1) as u32, decimal_value(d2) as u32)),
        forall|t: Seq<char>|
            (forall|i: int| 0 <= i < t.len() ==> #[trigger] t[i] != 'x' && t[i] != 'X') ==> parse_size_spec(t) is None,
{
    let s = d1 + seq![sep] + d2;
    assert forall|j: int| 0 <= j < d1.len() implies !is_size_separator(#[trigger] s[j]) by {
        assert(s[j] == d1[j]);
    }
    assert(s[d1.len() as int] == sep);
    lemma_first_separator(s, d1.len() as int);
    assert(s.take(d1.len() as int) =~= d1);
    assert(s.skip(d1.len() as int + 1) =~= d2);
    assert(unsigned_digits(d1) == d1);
    assert(unsigned_digits(d2) == d2);
    assert forall|t: Seq<char>|
        (forall|i: int| 0 <= i < t.len() ==> #[trigger] t[i] != 'x' && t[i] != 'X') implies parse_size_spec(t) is None by {
        assert forall|j: int| 0 <= j < t.len() implies !is_size_separator(#[trigger] t[j]) by {}
        lemma_first_separator(t, t.len() as int);
    }
}

} // verus!
