//! Integers and bytes as text.

use vstd::prelude::*;
use vstd::std_specs::iter::IteratorSpec;

use crate::text::{split_first, CharClass};

verus! {

// ---------------------------------------------------------------------------
// Writing
// ---------------------------------------------------------------------------

/// The decimal digit for a value below ten.
pub open spec fn digit_char(d: int) -> char {
    (d + 48) as char
}

/// The decimal digits of `n`, without leading zeros.
pub open spec fn decimal(n: nat) -> Seq<char>
    decreases n,
{
    if n < 10 {
        seq![digit_char(n as int)]
    } else {
        decimal(n / 10).push(digit_char((n % 10) as int))
    }
}

/// The decimal form of a signed integer: a minus sign where it is negative,
/// then the digits of its magnitude.
pub open spec fn signed_decimal(n: int) -> Seq<char> {
    if n < 0 {
        seq!['-'] + decimal((-n) as nat)
    } else {
        decimal(n as nat)
    }
}

/// Append the decimal digits of `n`.
pub fn push_decimal(out: &mut String, n: u64)
    ensures
        final(out)@ == old(out)@ + decimal(n as nat),
    decreases n,
{
    if n >= 10 {
        push_decimal(out, n / 10);
    }
    out.push(((n % 10) as u8 + 48) as char);
    proof {
        assert(out@ =~= old(out)@ + decimal(n as nat));
    }
}

/// Append the decimal form of a signed integer.
pub fn push_signed_decimal(out: &mut String, n: i64)
    ensures
        final(out)@ == old(out)@ + signed_decimal(n as int),
{
    if n < 0 {
        out.push('-');
        let magnitude: u64 = (-(n as i128)) as u64;
        push_decimal(out, magnitude);
        proof {
            assert(out@ =~= old(out)@ + signed_decimal(n as int));
        }
    } else {
        push_decimal(out, n as u64);
    }
}

/// The upper-case hexadecimal digit for a value below sixteen.
pub open spec fn hex_char(d: int) -> char {
    if d < 10 {
        (d + 48) as char
    } else {
        (d + 55) as char
    }
}

/// A byte as two upper-case hexadecimal digits.
pub open spec fn hex_byte(b: u8) -> Seq<char> {
    seq![hex_char(b as int / 16), hex_char(b as int % 16)]
}

fn hex_digit(d: u8) -> (c: char)
    requires
        d < 16,
    ensures
        c == hex_char(d as int),
{
    if d < 10 {
        (d + 48) as char
    } else {
        (d + 55) as char
    }
}

/// Append a byte as two upper-case hexadecimal digits.
pub fn push_hex_byte(out: &mut String, b: u8)
    ensures
        final(out)@ == old(out)@ + hex_byte(b),
{
    out.push(hex_digit(b / 16));
    out.push(hex_digit(b % 16));
    proof {
        assert(out@ =~= old(out)@ + hex_byte(b));
    }
}

// ---------------------------------------------------------------------------
// Reading
// ---------------------------------------------------------------------------

/// Every character of `s` is a decimal digit.
pub open spec fn all_digits(s: Seq<char>) -> bool {
    forall|i: int| 0 <= i < s.len() ==> CharClass::Digit.has(#[trigger] s[i])
}

/// The number that a run of decimal digits stands for.
pub open spec fn digits_value(s: Seq<char>) -> nat
    decreases s.len(),
{
    if s.len() == 0 {
        0
    } else {
        (digits_value(s.drop_last()) * 10 + (s.last() as int - 48)) as nat
    }
}

/// The number that `s` stands for as a non-empty run of digits not above
/// `limit`.
pub open spec fn digits_up_to(s: Seq<char>, limit: int) -> Option<int> {
    if s.len() > 0 && all_digits(s) && digits_value(s) <= limit {
        Some(digits_value(s) as int)
    } else {
        None
    }
}

/// The number that `s` stands for as an unsigned integer not above `limit`,
/// with an optional plus sign.
pub open spec fn unsigned_value(s: Seq<char>, limit: int) -> Option<int> {
    if s.len() > 0 && s[0] == '+' {
        digits_up_to(s.drop_first(), limit)
    } else {
        digits_up_to(s, limit)
    }
}

/// The number that `s` stands for as a 64-bit signed integer, with an
/// optional sign.
pub open spec fn signed_value(s: Seq<char>) -> Option<i64> {
    if s.len() > 0 && s[0] == '-' {
        match digits_up_to(s.drop_first(), 0x8000_0000_0000_0000) {
            Some(v) => Some((-v) as i64),
            None => None,
        }
    } else {
        match unsigned_value(s, 0x7fff_ffff_ffff_ffff) {
            Some(v) => Some(v as i64),
            None => None,
        }
    }
}

/// Read a non-empty run of decimal digits that stands for at most `limit`.
pub fn parse_digits(s: &str, limit: u64) -> (r: Option<u64>)
    ensures
        r matches Some(v) ==> digits_up_to(s@, limit as int) == Some(v as int),
        r is None ==> digits_up_to(s@, limit as int) is None,
{
    if s.is_empty() {
        return None;
    }
    let mut chars = s.chars();
    let mut value: u64 = 0;
    let mut over: bool = false;
    let mut done: bool = false;
    let ghost mut k: int = 0;
    while !done
        invariant
            0 <= k <= s@.len(),
            s@.len() > 0,
            !done ==> chars.remaining() == s@.skip(k),
            done ==> k == s@.len(),
            all_digits(s@.take(k)),
            over ==> digits_value(s@.take(k)) > limit,
            !over ==> digits_value(s@.take(k)) == value && value <= limit,
        decreases s@.len() - k, (if done { 0int } else { 1int }),
    {
        match chars.next() {
            Some(c) => {
                assert(c == s@[k]);
                if !CharClass::Digit.contains(c) {
                    return None;
                }
                proof {
                    assert(s@.skip(k).drop_first() =~= s@.skip(k + 1));
                    assert(s@.take(k + 1).drop_last() =~= s@.take(k));
                    assert(s@.take(k + 1).last() == c);
                    assert forall|i: int| 0 <= i < k + 1 implies CharClass::Digit.has(
                        #[trigger] s@.take(k + 1)[i],
                    ) by {
                        if i < k {
                            assert(CharClass::Digit.has(s@.take(k)[i]));
                        }
                    }
                    k = k + 1;
                }
                if !over {
                    let next: u128 = (value as u128) * 10 + ((c as u8 - 48) as u128);
                    if next > limit as u128 {
                        over = true;
                    } else {
                        value = next as u64;
                    }
                }
            },
            None => {
                done = true;
            },
        }
    }
    proof {
        assert(s@.take(k) =~= s@);
    }
    if over {
        None
    } else {
        Some(value)
    }
}

/// Read an unsigned integer not above `limit`, with an optional plus sign.
pub fn parse_unsigned(s: &str, limit: u64) -> (r: Option<u64>)
    ensures
        r matches Some(v) ==> unsigned_value(s@, limit as int) == Some(v as int),
        r is None ==> unsigned_value(s@, limit as int) is None,
{
    match split_first(s) {
        Some((c, tail)) => {
            if c == '+' {
                parse_digits(tail, limit)
            } else {
                parse_digits(s, limit)
            }
        },
        None => None,
    }
}

/// Read a 64-bit signed integer with an optional sign.
pub fn parse_signed(s: &str) -> (r: Option<i64>)
    ensures
        r == signed_value(s@),
{
    match split_first(s) {
        Some((c, tail)) => {
            if c == '-' {
                match parse_digits(tail, 0x8000_0000_0000_0000) {
                    Some(v) => Some((-(v as i128)) as i64),
                    None => None,
                }
            } else {
                match parse_unsigned(s, 0x7fff_ffff_ffff_ffff) {
                    Some(v) => Some(v as i64),
                    None => None,
                }
            }
        },
        None => None,
    }
}

// ---------------------------------------------------------------------------
// Reading gives back what was written
// ---------------------------------------------------------------------------

/// The decimal digits of a number are digits, and stand for that number.
pub proof fn law_decimal_reads_back(n: nat)
    ensures
        decimal(n).len() > 0,
        all_digits(decimal(n)),
        digits_value(decimal(n)) == n,
    decreases n,
{
    reveal_with_fuel(digits_value, 2);
    if n < 10 {
        assert(decimal(n).drop_last() =~= Seq::<char>::empty());
    } else {
        law_decimal_reads_back(n / 10);
        let head = decimal(n / 10);
        assert(decimal(n).drop_last() =~= head);
        assert forall|i: int| 0 <= i < decimal(n).len() implies CharClass::Digit.has(
            #[trigger] decimal(n)[i],
        ) by {
            if i < head.len() {
                assert(CharClass::Digit.has(head[i]));
            }
        }
    }
}

/// A run of `k` digits stands for a number below the `k`th power of ten.
pub proof fn lemma_digits_bound(s: Seq<char>)
    requires
        all_digits(s),
    ensures
        digits_value(s) < vstd::arithmetic::power::pow(10, s.len()),
    decreases s.len(),
{
    vstd::arithmetic::power::lemma_pow0(10);
    if s.len() > 0 {
        let t = s.drop_last();
        assert forall|i: int| 0 <= i < t.len() implies CharClass::Digit.has(#[trigger] t[i]) by {
            assert(CharClass::Digit.has(s[i]));
        }
        assert(CharClass::Digit.has(s[s.len() - 1]));
        lemma_digits_bound(t);
        vstd::arithmetic::power::lemma_pow1(10);
        vstd::arithmetic::power::lemma_pow_adds(10, t.len(), 1);
    }
}

/// A number below the `k`th power of ten has at most `k` decimal digits.
pub proof fn lemma_decimal_len(n: nat, k: nat)
    requires
        k > 0,
        n < vstd::arithmetic::power::pow(10, k),
    ensures
        decimal(n).len() <= k,
    decreases k,
{
    vstd::arithmetic::power::lemma_pow1(10);
    if n >= 10 {
        if k == 1 {
        } else {
            vstd::arithmetic::power::lemma_pow_adds(10, 1, (k - 1) as nat);
            lemma_decimal_len(n / 10, (k - 1) as nat);
        }
    }
}

/// Reading the decimal form of a 64-bit signed integer gives that integer.
pub proof fn law_signed_decimal_reads_back(n: i64)
    ensures
        signed_value(signed_decimal(n as int)) == Some(n),
{
    if n < 0 {
        law_decimal_reads_back((-n) as nat);
        assert(signed_decimal(n as int).drop_first() =~= decimal((-n) as nat));
    } else {
        law_decimal_reads_back(n as nat);
        assert(CharClass::Digit.has(decimal(n as nat)[0]));
    }
}

// ---------------------------------------------------------------------------
// What numbers look like
// ---------------------------------------------------------------------------

/// Digits stand for a number by place: a digit behind others multiplies what
/// they stand for by ten and adds its own value.
pub proof fn law_digits_count_by_place(s: Seq<char>, d: int)
    requires
        0 <= d <= 9,
    ensures
        digits_value(Seq::empty()) == 0,
        digits_value(s.push((48 + d) as char)) == 10 * digits_value(s) + d,
{
    assert(s.push((48 + d) as char).drop_last() =~= s);
}

/// Leading zeros make no difference to what digits stand for.
pub proof fn law_leading_zeros_do_not_count(s: Seq<char>)
    ensures
        digits_value(seq!['0'] + s) == digits_value(s),
    decreases s.len(),
{
    let t = seq!['0'] + s;
    if s.len() == 0 {
        assert(t.drop_last() =~= Seq::<char>::empty());
        assert(digits_value(t.drop_last()) == 0);
    } else {
        assert(t.drop_last() =~= seq!['0'] + s.drop_last());
        law_leading_zeros_do_not_count(s.drop_last());
    }
}

/// A decimal form has no leading zero, but for zero itself.
pub proof fn law_decimal_has_no_leading_zero(n: nat)
    ensures
        decimal(n)[0] == '0' <==> n == 0,
        n == 0 ==> decimal(n).len() == 1,
    decreases n,
{
    if n >= 10 {
        law_decimal_reads_back(n / 10);
        law_decimal_has_no_leading_zero(n / 10);
        assert(decimal(n)[0] == decimal(n / 10)[0]);
    }
}

/// The decimal form of an integer starts with a minus sign exactly if it is
/// negative, and otherwise holds digits only.
pub proof fn law_signed_decimal_form(n: int)
    ensures
        signed_decimal(n).len() > 0,
        signed_decimal(n)[0] == '-' <==> n < 0,
        forall|i: int|
            1 <= i < signed_decimal(n).len() ==> '0' <= #[trigger] signed_decimal(n)[i] <= '9',
        n >= 0 ==> '0' <= signed_decimal(n)[0] <= '9',
        n < 0 ==> signed_decimal(n) == seq!['-'] + signed_decimal(-n),
{
    let d = decimal((if n < 0 { -n } else { n }) as nat);
    law_decimal_reads_back((if n < 0 { -n } else { n }) as nat);
    assert forall|i: int| 0 <= i < d.len() implies '0' <= #[trigger] d[i] <= '9' by {
        assert(CharClass::Digit.has(d[i]));
    }
    assert('0' <= d[0]);
    assert forall|i: int| 1 <= i < signed_decimal(n).len() implies '0' <= #[trigger] signed_decimal(
        n,
    )[i] <= '9' by {
        if n < 0 {
            assert(signed_decimal(n)[i] == d[i - 1]);
        }
    }
}

/// What is read as a signed integer: one or more digits, with a sign before
/// them or none, that stand for a 64-bit integer.  It is that integer; a
/// minus sign makes it negative, a plus sign changes nothing.
pub proof fn law_what_reads_as_an_integer(digits: Seq<char>)
    ensures
        ({
            let well_formed = digits.len() > 0 && forall|i: int|
                0 <= i < digits.len() ==> '0' <= #[trigger] digits[i] <= '9';
            let v = digits_value(digits) as int;
            &&& signed_value(seq!['-'] + digits) == (if well_formed && v
                <= 0x8000_0000_0000_0000 {
                Some((-v) as i64)
            } else {
                None
            })
            &&& signed_value(seq!['+'] + digits) == (if well_formed && v
                <= 0x7fff_ffff_ffff_ffff {
                Some(v as i64)
            } else {
                None
            })
            &&& digits.len() == 0 || (digits[0] != '-' && digits[0] != '+') ==> signed_value(digits)
                == (if well_formed && v <= 0x7fff_ffff_ffff_ffff {
                Some(v as i64)
            } else {
                None
            })
        }),
{
    assert((seq!['-'] + digits).drop_first() =~= digits);
    assert((seq!['+'] + digits).drop_first() =~= digits);
    if forall|i: int| 0 <= i < digits.len() ==> '0' <= #[trigger] digits[i] <= '9' {
        assert(all_digits(digits));
    } else {
        let i = choose|i: int|
            0 <= i < digits.len() && !('0' <= #[trigger] digits[i] <= '9');
        assert(!CharClass::Digit.has(digits[i]));
        assert(!all_digits(digits));
    }
}

/// What is read as an unsigned integer: one or more digits, with a plus sign
/// before them or none, that stand for a number not above the limit.
pub proof fn law_what_reads_as_unsigned(digits: Seq<char>, limit: int)
    ensures
        ({
            let fits = digits.len() > 0 && digits_value(digits) <= limit && forall|i: int|
                0 <= i < digits.len() ==> '0' <= #[trigger] digits[i] <= '9';
            let r = if fits { Some(digits_value(digits) as int) } else { None };
            &&& unsigned_value(seq!['+'] + digits, limit) == r
            &&& digits.len() == 0 || digits[0] != '+' ==> unsigned_value(digits, limit) == r
        }),
{
    assert((seq!['+'] + digits).drop_first() =~= digits);
    if forall|i: int| 0 <= i < digits.len() ==> '0' <= #[trigger] digits[i] <= '9' {
        assert(all_digits(digits));
    } else {
        let i = choose|i: int|
            0 <= i < digits.len() && !('0' <= #[trigger] digits[i] <= '9');
        assert(!CharClass::Digit.has(digits[i]));
        assert(!all_digits(digits));
    }
}

/// A byte in hexadecimal is two digits, the higher first, each of which is
/// `0` to `9` or `A` to `F` and stands for its value.
pub proof fn law_hex_digits(b: u8)
    ensures
        ({
            let h = hex_byte(b);
            let hi = b as int / 16;
            let lo = b as int % 16;
            &&& h.len() == 2
            &&& h[0] as int == (if hi < 10 { '0' as int + hi } else { 'A' as int + hi - 10 })
            &&& h[1] as int == (if lo < 10 { '0' as int + lo } else { 'A' as int + lo - 10 })
        }),
{
}

} // verus!
