//! Julian day numbers: decimal text and the Unix second that it stands for.
use vstd::prelude::*;

use crate::money;
use crate::text;
use crate::timestamp;

verus! {

/// A decimal number: `significand` times ten to the power of `scale`.
pub struct Decimal {
    pub significand: int,
    pub scale: int,
}

/// A significand takes further digits while it is below this; later digits only
/// count by their place.
pub const SIGNIFICAND_LIMIT: u64 = 1_844_674_407_370_955_160;

/// The Unix second at which Julian days start.
pub const JULIAN_START: i64 = -210_866_760_000;

impl Decimal {
    /// The number with one more digit, before or behind the decimal point.
    pub open spec fn with_digit(self, c: char, behind_point: bool) -> Decimal {
        if self.significand < SIGNIFICAND_LIMIT {
            Decimal {
                significand: 10 * self.significand + timestamp::digit_value(c),
                scale: if behind_point {
                    self.scale - 1
                } else {
                    self.scale
                },
            }
        } else {
            Decimal {
                significand: self.significand,
                scale: if behind_point {
                    self.scale
                } else {
                    self.scale + 1
                },
            }
        }
    }

    /// The Unix second at a Julian day number, rounded to milliseconds and then
    /// cut to the second; none below zero or behind the year 9999.
    pub open spec fn julian_second(self) -> Option<int> {
        let top = self.significand * money::pow10(self.scale);
        let below = money::pow10(-self.scale);
        if 0 <= self.significand && 2 * top < 10_746_969 * below {
            Some((2 * top * 86_400_000 + below) / (2 * below) / 1000 + JULIAN_START)
        } else {
            None
        }
    }
}

/// The number `d` with the leading digits of a text, and what follows these.
pub open spec fn with_digits(s: Seq<char>, d: Decimal, behind_point: bool) -> (Decimal, Seq<char>)
    decreases s.len(),
{
    if s.len() > 0 && timestamp::is_digit(s[0]) {
        with_digits(s.drop_first(), d.with_digit(s[0], behind_point), behind_point)
    } else {
        (d, s)
    }
}

/// The exponent `e` with the leading digits of a text, and what follows these. An
/// exponent of ten thousand or more stays ten thousand.
pub open spec fn exponent_digits(s: Seq<char>, e: int) -> (int, Seq<char>)
    decreases s.len(),
{
    if s.len() > 0 && timestamp::is_digit(s[0]) {
        exponent_digits(
            s.drop_first(),
            if e < 10_000 {
                10 * e + timestamp::digit_value(s[0])
            } else {
                10_000
            },
        )
    } else {
        (e, s)
    }
}

/// `s` without the sign that it starts with, if any.
pub open spec fn without_sign(s: Seq<char>) -> Seq<char> {
    if s.len() > 0 && (s[0] == '-' || s[0] == '+') {
        s.drop_first()
    } else {
        s
    }
}

/// The power of ten that a text starts with, `e` and a whole number, and what
/// follows it; zero where none stands, and nothing where its digits are missing.
pub open spec fn exponent_of(s: Seq<char>) -> Option<(int, Seq<char>)> {
    if s.len() > 0 && (s[0] == 'e' || s[0] == 'E') {
        let signed = s.drop_first();
        let digits = without_sign(signed);
        let (e, rest) = exponent_digits(digits, 0);
        if rest.len() == digits.len() {
            None
        } else if signed[0] == '-' {
            Some((-e, rest))
        } else {
            Some((e, rest))
        }
    } else {
        Some((0, s))
    }
}

/// The number of the digits of a text, with or without a decimal point among
/// them, and what follows; nothing where there is no digit.
pub open spec fn digits_of(s: Seq<char>) -> Option<(Decimal, Seq<char>)> {
    let (whole, after) = with_digits(s, Decimal { significand: 0, scale: 0 }, false);
    if after.len() > 0 && after[0] == '.' {
        let (all, rest) = with_digits(after.drop_first(), whole, true);
        if after.len() == s.len() && rest.len() + 1 == after.len() {
            None
        } else {
            Some((all, rest))
        }
    } else if after.len() == s.len() {
        None
    } else {
        Some((whole, after))
    }
}

/// The number that a text spells, with blanks around it or none: a sign, digits
/// with or without a decimal point, and a power of ten.
pub open spec fn decimal_of(s: Seq<char>) -> Option<Decimal> {
    let signed = text::without_blanks(s);
    match digits_of(without_sign(signed)) {
        Some((number, after)) => match exponent_of(after) {
            Some((e, rest)) if text::without_blanks(rest).len() == 0 => Some(
                Decimal {
                    significand: if signed[0] == '-' {
                        -number.significand
                    } else {
                        number.significand
                    },
                    scale: number.scale + e,
                },
            ),
            _ => None,
        },
        None => None,
    }
}

/// A [`Decimal`] that is not negative, as it is computed with.
pub struct Number {
    pub significand: u64,
    pub scale: i128,
}

impl View for Number {
    type V = Decimal;

    open spec fn view(&self) -> Decimal {
        Decimal { significand: self.significand as int, scale: self.scale as int }
    }
}

/// The scale of a number is far from the bounds of its type.
spec fn is_moderate(scale: i128, digits: int) -> bool {
    -digits <= scale <= digits
}

/// Reads the leading digits.
fn read_digits(xs: &Vec<char>, d: Number, behind_point: bool) -> (r: (Number, Vec<char>))
    requires
        is_moderate(d.scale, usize::MAX as int),
    ensures
        with_digits(xs@, d@, behind_point) == (r.0@, r.1@),
        is_moderate(r.0.scale, 2 * usize::MAX as int),
        r.1.len() <= xs.len(),
        d.scale == 0 ==> is_moderate(r.0.scale, usize::MAX as int),
{
    let mut n = Number { significand: d.significand, scale: d.scale };
    let mut i: usize = 0;
    assert(xs@.skip(0) =~= xs@);
    while i < xs.len() && timestamp::char_is_digit(xs[i])
        invariant
            i <= xs.len(),
            is_moderate(d.scale, usize::MAX as int),
            d.scale - i <= n.scale <= d.scale + i,
            with_digits(xs@.skip(i as int), n@, behind_point) == with_digits(xs@, d@, behind_point),
        decreases xs.len() - i,
    {
        assert(xs@.skip(i as int).drop_first() =~= xs@.skip(i + 1));
        if n.significand < SIGNIFICAND_LIMIT {
            n.significand = 10 * n.significand + timestamp::digit_number(xs[i]);
            if behind_point {
                n.scale = n.scale - 1;
            }
        } else if !behind_point {
            n.scale = n.scale + 1;
        }
        i += 1;
    }
    (n, text::tail(xs, i))
}

/// Reads the digits of an exponent.
fn read_exponent_digits(xs: &Vec<char>) -> (r: (i128, Vec<char>))
    ensures
        exponent_digits(xs@, 0) == (r.0 as int, r.1@),
        0 <= r.0 <= 100_000,
        r.1.len() <= xs.len(),
{
    let mut e: i128 = 0;
    let mut i: usize = 0;
    assert(xs@.skip(0) =~= xs@);
    while i < xs.len() && timestamp::char_is_digit(xs[i])
        invariant
            i <= xs.len(),
            0 <= e <= 100_000,
            exponent_digits(xs@.skip(i as int), e as int) == exponent_digits(xs@, 0),
        decreases xs.len() - i,
    {
        assert(xs@.skip(i as int).drop_first() =~= xs@.skip(i + 1));
        if e < 10_000 {
            e = 10 * e + timestamp::digit_number(xs[i]) as i128;
        } else {
            e = 10_000;
        }
        i += 1;
    }
    (e, text::tail(xs, i))
}

/// Skips a sign.
fn skip_sign(xs: &Vec<char>) -> (r: Vec<char>)
    ensures
        r@ == without_sign(xs@),
{
    if xs.len() > 0 && (xs[0] == '-' || xs[0] == '+') {
        assert(xs@.skip(1) =~= xs@.drop_first());
        text::tail(xs, 1)
    } else {
        assert(xs@.skip(0) =~= xs@);
        text::tail(xs, 0)
    }
}

/// Reads a power of ten.
fn read_exponent(xs: &Vec<char>) -> (r: Option<(i128, Vec<char>)>)
    ensures
        match r {
            Some((e, rest)) => exponent_of(xs@) == Some((e as int, rest@)) && -100_000 <= e
                <= 100_000,
            None => exponent_of(xs@) is None,
        },
{
    if xs.len() == 0 || (xs[0] != 'e' && xs[0] != 'E') {
        assert(xs@.skip(0) =~= xs@);
        return Some((0, text::tail(xs, 0)));
    }
    assert(xs@.skip(1) =~= xs@.drop_first());
    let signed = text::tail(xs, 1);
    let digits = skip_sign(&signed);
    let (e, rest) = read_exponent_digits(&digits);
    if rest.len() == digits.len() {
        None
    } else if signed[0] == '-' {
        Some((-e, rest))
    } else {
        Some((e, rest))
    }
}

/// Reads digits with or without a decimal point among them.
fn read_number(xs: &Vec<char>) -> (r: Option<(Number, Vec<char>)>)
    ensures
        match r {
            Some((n, rest)) => digits_of(xs@) == Some((n@, rest@)) && is_moderate(
                n.scale,
                2 * usize::MAX as int,
            ),
            None => digits_of(xs@) is None,
        },
{
    let (whole, after) = read_digits(xs, Number { significand: 0, scale: 0 }, false);
    if after.len() > 0 && after[0] == '.' {
        assert(after@.skip(1) =~= after@.drop_first());
        let (all, rest) = read_digits(&text::tail(&after, 1), whole, true);
        if after.len() == xs.len() && rest.len() == after.len() - 1 {
            None
        } else {
            Some((all, rest))
        }
    } else if after.len() == xs.len() {
        None
    } else {
        Some((whole, after))
    }
}

/// Ten to a power.
fn power_of_ten(k: u32) -> (r: u128)
    requires
        k <= 28,
    ensures
        r == money::pow10(k as int),
        1 <= r <= 10_000_000_000_000_000_000_000_000_000,
{
    let mut p: u128 = 1;
    let mut i: u32 = 0;
    while i < k
        invariant
            i <= k <= 28,
            p == money::pow10(i as int),
            p >= 1,
        decreases k - i,
    {
        proof {
            lemma_pow10_order(i + 1, 28);
            lemma_pow10_28();
        }
        p = 10 * p;
        i += 1;
    }
    proof {
        lemma_pow10_order(k as int, 28);
        lemma_pow10_28();
    }
    p
}

/// Larger powers are larger.
proof fn lemma_pow10_order(a: int, b: int)
    requires
        a <= b,
    ensures
        1 <= money::pow10(a) <= money::pow10(b),
    decreases b - a, b,
{
    if a < b {
        lemma_pow10_order(a, b - 1);
    } else if a > 0 {
        lemma_pow10_order(a - 1, a - 1);
    }
}

/// A power of ten, written out.
proof fn lemma_pow10_28()
    ensures
        money::pow10(28) == 10_000_000_000_000_000_000_000_000_000,
{
    reveal_with_fuel(money::pow10, 29);
}

/// The Unix second at a Julian day number.
fn second_at(n: &Number) -> (r: Option<i64>)
    ensures
        match r {
            Some(t) => n@.julian_second() == Some(t as int) && JULIAN_START <= t
                <= timestamp::LAST_SECOND + 1,
            None => n@.julian_second() is None,
        },
{
    if n.scale >= 8 {
        proof {
            lemma_pow10_order(8, n.scale as int);
            reveal_with_fuel(money::pow10, 9);
            let (s, p) = (n.significand as int, money::pow10(n.scale as int));
            assert(s >= 1 ==> s * p >= p) by (nonlinear_arith)
                requires
                    p >= 1,
            ;
            assert(0 * p == 0) by (nonlinear_arith);
        }
        return if n.significand == 0 {
            Some(JULIAN_START)
        } else {
            None
        };
    }
    if n.scale < -28 {
        proof {
            lemma_pow10_order(28, -n.scale);
            lemma_pow10_order(29, -n.scale);
            lemma_pow10_28();
            assert(money::pow10(29) == 10 * money::pow10(28));
            let (s, p) = (n.significand as int, money::pow10(-n.scale));
            assert(s * 1 == s);
            lemma_small_quotient(2 * s * 86_400_000 + p, 2 * p);
        }
        return Some(JULIAN_START);
    }
    let up: u32 = if n.scale > 0 {
        n.scale as u32
    } else {
        0
    };
    let down: u32 = if n.scale < 0 {
        (-n.scale) as u32
    } else {
        0
    };
    proof {
        lemma_pow10_order(up as int, 7);
        reveal_with_fuel(money::pow10, 8);
    }
    let factor: u128 = power_of_ten(up);
    let below: u128 = power_of_ten(down);
    assert(n.significand * factor <= 0xffff_ffff_ffff_ffff * 10_000_000) by (nonlinear_arith)
        requires
            n.significand <= 0xffff_ffff_ffff_ffff,
            factor <= 10_000_000,
    ;
    let top: u128 = n.significand as u128 * factor;
    if 2 * top >= 10_746_969 * below {
        return None;
    }
    let doubled: u128 = 2 * top * 86_400_000 + below;
    let millis: u128 = doubled / (2 * below);
    proof {
        lemma_bounded_quotient(top as int, below as int);
    }
    Some((millis / 1000) as i64 + JULIAN_START)
}

/// A quotient below one.
proof fn lemma_small_quotient(a: int, b: int)
    requires
        0 <= a < b,
    ensures
        a / b == 0,
{
    assert(a / b == 0) by (nonlinear_arith)
        requires
            0 <= a < b,
    ;
}

/// The milliseconds of a day number that is in range.
proof fn lemma_bounded_quotient(top: int, below: int)
    requires
        0 <= top,
        1 <= below,
        2 * top < 10_746_969 * below,
    ensures
        0 <= (2 * top * 86_400_000 + below) / (2 * below) <= 464_269_060_800_000,
{
    let a = 2 * top * 86_400_000 + below;
    let b = 2 * below;
    assert(a <= 464_269_060_800_000 * b + below);
    assert(a / b <= 464_269_060_800_000) by (nonlinear_arith)
        requires
            0 <= a < 464_269_060_800_001 * b,
            b > 0,
    ;
    assert(a / b >= 0) by (nonlinear_arith)
        requires
            0 <= a,
            b > 0,
    ;
}

/// The Unix second at the Julian day number that characters spell.
pub fn read_julian(xs: &Vec<char>) -> (r: Option<i64>)
    ensures
        match (r, decimal_of(xs@)) {
            (Some(t), Some(d)) => d.julian_second() == Some(t as int) && JULIAN_START <= t
                <= timestamp::LAST_SECOND + 1,
            (Some(_), None) => false,
            (None, Some(d)) => d.julian_second() is None,
            (None, None) => true,
        },
{
    let signed = text::skip_blanks(xs);
    match read_number(&skip_sign(&signed)) {
        Some((number, after)) => match read_exponent(&after) {
            Some((e, rest)) => {
                if text::skip_blanks(&rest).len() > 0 {
                    return None;
                }
                let n = Number { significand: number.significand, scale: number.scale + e };
                if signed[0] == '-' && n.significand > 0 {
                    return None;
                }
                second_at(&n)
            },
            None => None,
        },
        None => None,
    }
}

} // verus!
