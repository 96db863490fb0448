//! Decimal text: parsing as `str::parse` does for integers, and formatting.
use vstd::prelude::*;

verus! {

/// ASCII `'0'`.
pub const ASCII_0: u8 = 48;
/// ASCII `'9'`.
pub const ASCII_9: u8 = 57;
/// ASCII `'+'`.
pub const ASCII_PLUS: u8 = 43;
/// ASCII `'-'`.
pub const ASCII_MINUS: u8 = 45;

pub open spec fn is_digit(b: u8) -> bool {
    ASCII_0 <= b && b <= ASCII_9
}

pub open spec fn all_digits(s: Seq<u8>) -> bool {
    forall|i: int| 0 <= i < s.len() ==> is_digit(#[trigger] s[i])
}

/// The number that a string of decimal digits denotes (most significant first).
pub open spec fn digits_value(s: Seq<u8>) -> nat
    decreases s.len(),
{
    if s.len() == 0 {
        0
    } else {
        digits_value(s.drop_last()) * 10 + (s.last() - ASCII_0) as nat
    }
}

/// Decimal digits of `n`, without leading zeros (`"0"` for zero).
pub open spec fn decimal(n: nat) -> Seq<u8>
    decreases n,
{
    if n < 10 {
        seq![(n + ASCII_0) as u8]
    } else {
        decimal(n / 10).push((n % 10 + ASCII_0) as u8)
    }
}

pub proof fn lemma_decimal(n: nat)
    ensures
        decimal(n).len() >= 1,
        all_digits(decimal(n)),
        digits_value(decimal(n)) == n,
    decreases n,
{
    if n >= 10 {
        lemma_decimal(n / 10);
        assert(decimal(n).drop_last() =~= decimal(n / 10));
        let d = decimal(n);
        assert(d.last() == (n % 10 + ASCII_0) as u8);
        assert((d.last() - ASCII_0) as nat == n % 10);
        assert(digits_value(d) == digits_value(decimal(n / 10)) * 10 + n % 10);
        assert(n == (n / 10) * 10 + n % 10);
    } else {
        let d = decimal(n);
        assert(d.drop_last() =~= Seq::<u8>::empty());
        assert(digits_value(d) == digits_value(d.drop_last()) * 10 + (d.last() - ASCII_0) as nat);
    }
}

/// Decimal text in canonical form: one or more ASCII digits, and no leading
/// zero unless the text is `"0"` itself.
pub open spec fn is_canonical_decimal(t: Seq<u8>) -> bool {
    t.len() > 0 && all_digits(t) && (t.len() == 1 || t[0] != ASCII_0)
}

/// Canonical decimal text of the integer `v`: a `'-'` before the digits of a
/// negative number, no sign otherwise, and no leading zero.
pub open spec fn is_canonical_signed(t: Seq<u8>, v: int) -> bool {
    if v < 0 {
        t.len() > 1 && t[0] == ASCII_MINUS && is_canonical_decimal(t.skip(1))
            && digits_value(t.skip(1)) == -v
    } else {
        is_canonical_decimal(t) && digits_value(t) == v
    }
}

/// The digits are the ASCII bytes `'0'` (48) to `'9'` (57).
pub proof fn lemma_is_digit_ascii(b: u8)
    ensures
        is_digit(b) <==> 48 <= b <= 57,
{
}

/// Horner's rule: one more digit multiplies the value by ten and adds the digit.
pub proof fn lemma_digits_value_push(s: Seq<u8>, d: u8)
    requires
        is_digit(d),
    ensures
        digits_value(s.push(d)) == digits_value(s) * 10 + (d - 48),
        digits_value(seq![d]) == d - 48,
{
    assert(s.push(d).drop_last() =~= s);
    assert(seq![d].drop_last() =~= Seq::<u8>::empty());
    assert(digits_value(Seq::<u8>::empty()) == 0);
    assert(seq![d].last() == d);
}

proof fn lemma_decimal_first_digit(n: nat)
    requires
        n >= 1,
    ensures
        decimal(n)[0] != ASCII_0,
    decreases n,
{
    if n >= 10 {
        lemma_decimal_first_digit(n / 10);
        lemma_decimal(n / 10);
    }
}

/// The decimal text of `n` is canonical and denotes `n`.
pub proof fn lemma_decimal_is_canonical(n: nat)
    ensures
        is_canonical_decimal(decimal(n)),
        digits_value(decimal(n)) == n,
{
    lemma_decimal(n);
    if n >= 1 {
        lemma_decimal_first_digit(n);
    } else {
        assert(decimal(n).len() == 1);
    }
}

/// The signed decimal text of `v` is canonical and denotes `v`.
pub proof fn lemma_signed_decimal_is_canonical(v: int)
    ensures
        is_canonical_signed(signed_decimal(v), v),
{
    if v < 0 {
        lemma_decimal_is_canonical((-v) as nat);
        assert(signed_decimal(v).skip(1) =~= decimal((-v) as nat));
    } else {
        lemma_decimal_is_canonical(v as nat);
    }
}

/// Appends the decimal digits of `n` to `out`.
pub fn push_decimal(out: &mut Vec<u8>, n: u64)
    ensures
        final(out)@ == old(out)@ + decimal(n as nat),
    decreases n,
{
    if n >= 10 {
        push_decimal(out, n / 10);
    }
    out.push((n % 10) as u8 + ASCII_0);
    assert(final(out)@ =~= old(out)@ + decimal(n as nat));
}


/// `s` without the one leading `'+'` that `str::parse` accepts for an unsigned type.
pub open spec fn unsigned_body(s: Seq<u8>) -> Seq<u8> {
    if s.len() > 0 && s[0] == ASCII_PLUS {
        s.skip(1)
    } else {
        s
    }
}

/// What `str::parse` gives for an unsigned integer type whose largest value is `max`:
/// an optional `'+'`, then one or more ASCII digits, with a value of at most `max`.
pub open spec fn parse_unsigned(s: Seq<u8>, max: nat) -> Option<nat> {
    let d = unsigned_body(s);
    if d.len() > 0 && all_digits(d) && digits_value(d) <= max {
        Some(digits_value(d))
    } else {
        None
    }
}

/// `s` without its leading sign, if it has one.
pub open spec fn signed_body(s: Seq<u8>) -> Seq<u8> {
    if s.len() > 0 && (s[0] == ASCII_PLUS || s[0] == ASCII_MINUS) {
        s.skip(1)
    } else {
        s
    }
}

pub open spec fn starts_with_minus(s: Seq<u8>) -> bool {
    s.len() > 0 && s[0] == ASCII_MINUS
}

/// What `str::parse` gives for a signed integer type with range `min..=max`:
/// an optional `'+'` or `'-'`, then one or more ASCII digits, with a value in range.
pub open spec fn parse_signed(s: Seq<u8>, min: int, max: int) -> Option<int> {
    let d = signed_body(s);
    let v: int = if starts_with_minus(s) {
        -digits_value(d)
    } else {
        digits_value(d) as int
    };
    if d.len() > 0 && all_digits(d) && min <= v && v <= max {
        Some(v)
    } else {
        None
    }
}

/// `str::parse::<u16>` on the bytes `s`.
pub open spec fn parse_u16_spec(s: Seq<u8>) -> Option<nat> {
    parse_unsigned(s, u16::MAX as nat)
}

/// `str::parse::<i32>` on the bytes `s`.
pub open spec fn parse_i32_spec(s: Seq<u8>) -> Option<int> {
    parse_signed(s, i32::MIN as int, i32::MAX as int)
}

/// `str::parse::<u16>` accepts exactly one or more ASCII digits, optionally
/// after one `'+'`, whose value is at most 65535, and gives that value.
pub proof fn lemma_parse_u16_characterized(s: Seq<u8>, v: nat)
    ensures
        parse_u16_spec(s) == Some(v) <==> v <= 65535 && (
            (s.len() > 0 && all_digits(s) && digits_value(s) == v)
            || (s.len() > 1 && s[0] == 43u8 && all_digits(s.skip(1)) && digits_value(s.skip(1)) == v)),
{
    if s.len() > 0 && s[0] == 43u8 {
        assert(!is_digit(s[0]));
    }
}

/// `str::parse::<i32>` accepts exactly one or more ASCII digits, optionally
/// after one `'+'` or `'-'`, whose signed value lies in the `i32` range, and
/// gives that value.
pub proof fn lemma_parse_i32_characterized(s: Seq<u8>, v: int)
    ensures
        parse_i32_spec(s) == Some(v) <==> -2147483648 <= v <= 2147483647 && (
            (s.len() > 0 && all_digits(s) && digits_value(s) == v)
            || (s.len() > 1 && s[0] == 43u8 && all_digits(s.skip(1)) && digits_value(s.skip(1)) == v)
            || (s.len() > 1 && s[0] == 45u8 && all_digits(s.skip(1)) && -digits_value(s.skip(1)) == v)),
{
    if s.len() > 0 && (s[0] == 43u8 || s[0] == 45u8) {
        assert(!is_digit(s[0]));
    }
}

/// A prefix of a digit string denotes at most what the whole string does.
pub proof fn lemma_digits_prefix_le(s: Seq<u8>, k: int)
    requires
        all_digits(s),
        0 <= k <= s.len(),
    ensures
        digits_value(s.take(k)) <= digits_value(s),
    decreases s.len(),
{
    if k < s.len() {
        assert(s.drop_last().take(k) =~= s.take(k));
        lemma_digits_prefix_le(s.drop_last(), k);
    } else {
        assert(s.take(k) =~= s);
    }
}

/// The value of the digits `s[start..]`, if they are one or more ASCII digits
/// whose value is at most `bound`.
fn bounded_digits_value(s: &[u8], start: usize, bound: u64) -> (r: Option<u64>)
    requires
        start <= s@.len(),
        bound <= u32::MAX,
    ensures
        ({
            let d = s@.skip(start as int);
            match r {
                Some(v) => d.len() > 0 && all_digits(d) && digits_value(d) <= bound && v
                    == digits_value(d),
                None => !(d.len() > 0 && all_digits(d) && digits_value(d) <= bound),
            }
        }),
{
    let ghost d = s@.skip(start as int);
    if start == s.len() {
        return None;
    }
    let mut acc: u64 = 0;
    let mut i: usize = start;
    assert(s@.subrange(start as int, start as int) =~= Seq::<u8>::empty());
    while i < s.len()
        invariant
            start <= i <= s@.len(),
            d == s@.skip(start as int),
            d.len() > 0,
            bound <= u32::MAX,
            all_digits(s@.subrange(start as int, i as int)),
            acc == digits_value(s@.subrange(start as int, i as int)),
            acc <= bound,
        decreases s@.len() - i,
    {
        let b = s[i];
        let ghost pre = s@.subrange(start as int, i as int);
        let ghost next = s@.subrange(start as int, i + 1);
        assert(next.drop_last() =~= pre);
        assert(next =~= d.take(i + 1 - start));
        if b < ASCII_0 || b > ASCII_9 {
            assert(!is_digit(d[i - start]));
            return None;
        }
        let v = acc * 10 + (b - ASCII_0) as u64;
        assert(all_digits(next));
        if v > bound {
            proof {
                if all_digits(d) {
                    lemma_digits_prefix_le(d, i + 1 - start);
                }
            }
            return None;
        }
        acc = v;
        i = i + 1;
    }
    assert(s@.subrange(start as int, i as int) =~= d);
    Some(acc)
}

/// Parses `text` as `text.parse::<u16>()` does.
pub fn parse_u16(text: &[u8]) -> (r: Option<u16>)
    ensures
        match r {
            Some(v) => parse_u16_spec(text@) == Some(v as nat),
            None => parse_u16_spec(text@) is None,
        },
{
    let start: usize = if text.len() > 0 && text[0] == ASCII_PLUS {
        1
    } else {
        0
    };
    assert(unsigned_body(text@) =~= text@.skip(start as int));
    match bounded_digits_value(text, start, u16::MAX as u64) {
        Some(v) => Some(v as u16),
        None => None,
    }
}

/// Parses `text` as `text.parse::<i32>()` does.
pub fn parse_i32(text: &[u8]) -> (r: Option<i32>)
    ensures
        match r {
            Some(v) => parse_i32_spec(text@) == Some(v as int),
            None => parse_i32_spec(text@) is None,
        },
{
    let signed = text.len() > 0 && (text[0] == ASCII_PLUS || text[0] == ASCII_MINUS);
    let negative = text.len() > 0 && text[0] == ASCII_MINUS;
    let start: usize = if signed {
        1
    } else {
        0
    };
    assert(signed_body(text@) =~= text@.skip(start as int));
    let bound: u64 = if negative {
        2147483648
    } else {
        2147483647
    };
    match bounded_digits_value(text, start, bound) {
        Some(v) => {
            if negative {
                Some((0i64 - v as i64) as i32)
            } else {
                Some(v as i32)
            }
        },
        None => None,
    }
}


/// Decimal text of `v`, with a leading `'-'` when it is negative.
pub open spec fn signed_decimal(v: int) -> Seq<u8> {
    if v < 0 {
        seq![ASCII_MINUS] + decimal((-v) as nat)
    } else {
        decimal(v as nat)
    }
}

/// Appends the decimal text of `v` to `out`.
pub fn push_signed_decimal(out: &mut Vec<u8>, v: i32)
    ensures
        final(out)@ == old(out)@ + signed_decimal(v as int),
{
    if v < 0 {
        out.push(ASCII_MINUS);
        let magnitude: u64 = (0i64 - v as i64) as u64;
        push_decimal(out, magnitude);
        assert(final(out)@ =~= old(out)@ + signed_decimal(v as int));
    } else {
        push_decimal(out, v as u64);
    }
}

/// Formatting a number and parsing the text back as an unsigned type gives the number.
pub proof fn lemma_parse_unsigned_decimal(n: nat, max: nat)
    requires
        n <= max,
    ensures
        parse_unsigned(decimal(n), max) == Some(n),
{
    lemma_decimal(n);
    assert(is_digit(decimal(n)[0]));
    assert(unsigned_body(decimal(n)) == decimal(n));
}

/// Formatting a number and parsing the text back as a signed type gives the number.
pub proof fn lemma_parse_signed_decimal(v: int, min: int, max: int)
    requires
        min <= v <= max,
    ensures
        parse_signed(signed_decimal(v), min, max) == Some(v),
{
    let s = signed_decimal(v);
    if v < 0 {
        lemma_decimal((-v) as nat);
        assert(s.skip(1) =~= decimal((-v) as nat));
    } else {
        lemma_decimal(v as nat);
        assert(is_digit(s[0]));
    }
}

} // verus!
