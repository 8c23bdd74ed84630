//! Amounts of money: decimal text and whole stroops, ten million to the unit.
use vstd::prelude::*;

use crate::text;
use crate::timestamp;

verus! {

/// Where the decimal point of a text stands: the first `.`, or its end.
pub open spec fn point_position(s: Seq<char>) -> int
    decreases s.len(),
{
    if s.len() == 0 || s[0] == '.' {
        0
    } else {
        1 + point_position(s.drop_first())
    }
}

/// The part of an amount before its decimal point.
pub open spec fn whole_part(s: Seq<char>) -> Seq<char> {
    s.take(point_position(s))
}

/// The part of an amount after its decimal point.
pub open spec fn fraction_part(s: Seq<char>) -> Seq<char> {
    if point_position(s) < s.len() {
        s.skip(point_position(s) + 1)
    } else {
        Seq::empty()
    }
}

/// Whether a text is made of decimal digits.
pub open spec fn all_digits(s: Seq<char>) -> bool {
    forall|i: int| 0 <= i < s.len() ==> timestamp::is_digit(#[trigger] s[i])
}

/// A decimal number with at most seven decimal places: digits, and where there
/// is a decimal point, one to seven digits behind it.
pub open spec fn is_decimal(s: Seq<char>) -> bool {
    &&& whole_part(s).len() > 0
    &&& all_digits(whole_part(s))
    &&& all_digits(fraction_part(s))
    &&& point_position(s) < s.len() ==> 1 <= fraction_part(s).len() <= 7
}

/// `n` zero digits.
pub open spec fn zeros(n: int) -> Seq<char> {
    Seq::new(n as nat, |i: int| '0')
}

/// The digits of an amount written with all seven decimal places, without the
/// decimal point.
pub open spec fn stroop_digits(s: Seq<char>) -> Seq<char> {
    whole_part(s) + fraction_part(s) + zeros(7 - fraction_part(s).len())
}

/// The number that decimal digits spell.
pub open spec fn number_of(digits: Seq<char>) -> int
    decreases digits.len(),
{
    if digits.len() == 0 {
        0
    } else {
        10 * number_of(digits.drop_last()) + timestamp::digit_value(digits.last())
    }
}

/// The stroops of an amount: defined for a positive decimal with at most seven
/// decimal places that fits in 64 bits.
pub open spec fn stroops_of(s: Seq<char>) -> Option<int> {
    if is_decimal(s) && 0 < number_of(stroop_digits(s)) <= i64::MAX {
        Some(number_of(stroop_digits(s)))
    } else {
        None
    }
}

/// The decimal digits of a number, without leading zeros.
pub open spec fn digits_of(n: int) -> Seq<char>
    decreases n,
{
    if n < 10 {
        seq![timestamp::digit(n)]
    } else {
        digits_of(n / 10).push(timestamp::digit(n % 10))
    }
}

/// The last `width` decimal digits of a number.
pub open spec fn fixed_digits(n: int, width: int) -> Seq<char>
    decreases width,
{
    if width <= 0 {
        Seq::empty()
    } else {
        fixed_digits(n / 10, width - 1).push(timestamp::digit(n % 10))
    }
}

/// Digits without trailing zeros.
pub open spec fn without_trailing_zeros(s: Seq<char>) -> Seq<char>
    decreases s.len(),
{
    if s.len() > 0 && s.last() == '0' {
        without_trailing_zeros(s.drop_last())
    } else {
        s
    }
}

/// The canonical text of an amount: no leading zeros before the decimal point,
/// no trailing zeros behind it, and no point where nothing stands behind it.
pub open spec fn amount_text(stroops: int) -> Seq<char> {
    if stroops < 0 {
        seq!['-'] + unsigned_amount_text(-stroops)
    } else {
        unsigned_amount_text(stroops)
    }
}

/// The canonical text of an amount that is not negative.
pub open spec fn unsigned_amount_text(stroops: int) -> Seq<char> {
    let fraction = stroops % 10_000_000;
    if fraction == 0 {
        digits_of(stroops / 10_000_000)
    } else {
        digits_of(stroops / 10_000_000) + seq!['.'] + without_trailing_zeros(
            fixed_digits(fraction, 7),
        )
    }
}

/// Whether characters are decimal digits.
fn are_digits(xs: &Vec<char>) -> (r: bool)
    ensures
        r == all_digits(xs@),
{
    let mut i: usize = 0;
    while i < xs.len()
        invariant
            i <= xs.len(),
            forall|j: int| 0 <= j < i ==> timestamp::is_digit(#[trigger] xs@[j]),
        decreases xs.len() - i,
    {
        if !timestamp::char_is_digit(xs[i]) {
            return false;
        }
        i += 1;
    }
    true
}

/// The number that decimal digits spell, if it is at most `i64::MAX`.
fn bounded_number(xs: &Vec<char>) -> (r: Option<i64>)
    requires
        all_digits(xs@),
    ensures
        match r {
            Some(n) => n == number_of(xs@) && n >= 0,
            None => number_of(xs@) > i64::MAX,
        },
{
    let mut acc: u64 = 0;
    let mut i: usize = 0;
    assert(xs@.take(0) =~= Seq::<char>::empty());
    while i < xs.len()
        invariant
            all_digits(xs@),
            i <= xs.len(),
            acc <= i64::MAX,
            acc == number_of(xs@.take(i as int)),
        decreases xs.len() - i,
    {
        let next: u128 = 10 * (acc as u128) + timestamp::digit_number(xs[i]) as u128;
        proof {
            assert(xs@.take(i + 1).drop_last() =~= xs@.take(i as int));
            assert(next == number_of(xs@.take(i + 1)));
        }
        if next > i64::MAX as u128 {
            proof {
                lemma_number_prefix(xs@, i + 1);
            }
            return None;
        }
        acc = next as u64;
        i += 1;
    }
    assert(xs@.take(i as int) =~= xs@);
    Some(acc as i64)
}

/// Parses an amount into stroops; `None` unless it is a positive decimal with
/// at most seven decimal places.
pub fn parse_stroops(amount: &str) -> (r: Option<i64>)
    ensures
        match r {
            Some(n) => stroops_of(amount@) == Some(n as int),
            None => stroops_of(amount@) is None,
        },
{
    let xs = text::chars_of(amount);
    let n: usize = xs.len();
    let mut digits: Vec<char> = Vec::new();
    let mut p: usize = 0;
    assert(xs@.skip(0) =~= xs@);
    while p < n && xs[p] != '.'
        invariant
            xs@ == amount@,
            n == xs.len(),
            p <= n,
            digits@ == xs@.take(p as int),
            point_position(xs@) == p + point_position(xs@.skip(p as int)),
        decreases n - p,
    {
        proof {
            assert(xs@.skip(p as int).drop_first() =~= xs@.skip(p + 1));
            assert(xs@.take(p + 1) =~= xs@.take(p as int).push(xs@[p as int]));
        }
        digits.push(xs[p]);
        p += 1;
    }
    assert(point_position(amount@) == p);
    let places: usize = if p < n {
        n - p - 1
    } else {
        0
    };
    if p == 0 || (p < n && (places == 0 || places > 7)) {
        return None;
    }
    let mut i: usize = if p < n {
        p + 1
    } else {
        n
    };
    let ghost start = i as int;
    assert(xs@.subrange(start, start) =~= Seq::<char>::empty());
    assert(whole_part(amount@) + Seq::<char>::empty() =~= whole_part(amount@));
    while i < n
        invariant
            xs@ == amount@,
            n == xs.len(),
            0 <= start <= i <= n,
            digits@ == whole_part(amount@) + xs@.subrange(start, i as int),
        decreases n - i,
    {
        digits.push(xs[i]);
        i += 1;
        assert(digits@ =~= whole_part(amount@) + xs@.subrange(start, i as int));
    }
    assert(xs@.subrange(start, n as int) =~= fraction_part(amount@));
    let ghost bare = digits@;
    if !are_digits(&digits) {
        proof {
            let j = choose|j: int| 0 <= j < bare.len() && !timestamp::is_digit(#[trigger] bare[j]);
            if j < p {
                assert(!timestamp::is_digit(whole_part(amount@)[j]));
            } else {
                assert(!timestamp::is_digit(fraction_part(amount@)[j - p]));
            }
        }
        return None;
    }
    proof {
        assert forall|j: int| 0 <= j < whole_part(amount@).len() implies timestamp::is_digit(
            #[trigger] whole_part(amount@)[j],
        ) by {
            assert(bare[j] == whole_part(amount@)[j]);
        }
        assert forall|j: int| 0 <= j < fraction_part(amount@).len() implies timestamp::is_digit(
            #[trigger] fraction_part(amount@)[j],
        ) by {
            assert(bare[p + j] == fraction_part(amount@)[j]);
        }
        assert(is_decimal(amount@));
    }
    let mut k: usize = places;
    assert(bare + zeros(0) =~= bare);
    while k < 7
        invariant
            places <= k <= 7,
            all_digits(digits@),
            digits@ == bare + zeros(k - places),
        decreases 7 - k,
    {
        digits.push('0');
        k += 1;
        assert(digits@ =~= bare + zeros(k - places));
    }
    assert(digits@ =~= stroop_digits(amount@));
    match bounded_number(&digits) {
        Some(v) => if v > 0 {
            Some(v)
        } else {
            None
        },
        None => None,
    }
}

/// Appends the decimal digits of a number.
fn append_digits(out: &mut String, n: u64)
    ensures
        final(out)@ == old(out)@ + digits_of(n as int),
    decreases n,
{
    if n >= 10 {
        append_digits(out, n / 10);
    }
    out.append(timestamp::digit_str(n % 10));
    assert(out@ =~= old(out)@ + digits_of(n as int));
}

/// Appends the last `width` decimal digits of a number.
fn append_fixed(out: &mut String, n: u64, width: u64)
    ensures
        final(out)@ == old(out)@ + fixed_digits(n as int, width as int),
    decreases width,
{
    if width > 0 {
        append_fixed(out, n / 10, width - 1);
        out.append(timestamp::digit_str(n % 10));
    }
    assert(out@ =~= old(out)@ + fixed_digits(n as int, width as int));
}

/// The canonical text of an amount of stroops.
pub fn stroops_to_string(stroops: i64) -> (r: String)
    ensures
        r@ == amount_text(stroops as int),
{
    let mut out = String::new();
    let magnitude: u64 = if stroops < 0 {
        out.append("-");
        (-(stroops + 1)) as u64 + 1
    } else {
        stroops as u64
    };
    let ghost sign = out@;
    proof {
        reveal_strlit("-");
        reveal_strlit(".");
        assert(stroops < 0 ==> sign =~= seq!['-']);
        assert(stroops >= 0 ==> sign =~= Seq::<char>::empty());
    }
    append_digits(&mut out, magnitude / 10_000_000);
    let fraction: u64 = magnitude % 10_000_000;
    if fraction != 0 {
        out.append(".");
        let mut f: u64 = fraction;
        let mut width: u64 = 7;
        proof {
            reveal_with_fuel(pow10, 8);
            assert(pow10(7) == 10_000_000);
        }
        while f % 10 == 0
            invariant
                f > 0,
                1 <= width <= 7,
                f < pow10(width as int),
                without_trailing_zeros(fixed_digits(fraction as int, 7)) == without_trailing_zeros(
                    fixed_digits(f as int, width as int),
                ),
            decreases f,
        {
            proof {
                assert(fixed_digits(f as int, width as int).drop_last() =~= fixed_digits(
                    f as int / 10,
                    width - 1,
                ));
                reveal_with_fuel(pow10, 2);
            }
            f = f / 10;
            width = width - 1;
        }
        append_fixed(&mut out, f, width);
        proof {
            assert(fixed_digits(f as int, width as int).last() == timestamp::digit(f as int % 10));
        }
    }
    assert(out@ =~= sign + unsigned_amount_text(magnitude as int));
    assert(out@ =~= amount_text(stroops as int));
    out
}

/// Ten to a power.
pub open spec fn pow10(k: int) -> int
    decreases k,
{
    if k <= 0 {
        1
    } else {
        10 * pow10(k - 1)
    }
}

/// A prefix of decimal digits spells no larger number.
pub proof fn lemma_number_prefix(digits: Seq<char>, k: int)
    requires
        all_digits(digits),
        0 <= k <= digits.len(),
    ensures
        0 <= number_of(digits.take(k)) <= number_of(digits),
    decreases digits.len(),
{
    if digits.len() == 0 {
        assert(digits.take(k) =~= digits);
    } else if k < digits.len() {
        lemma_number_prefix(digits.drop_last(), k);
        assert(digits.drop_last().take(k) =~= digits.take(k));
        assert(timestamp::is_digit(digits.last()));
    } else {
        assert(digits.take(k) =~= digits);
        lemma_number_prefix(digits.drop_last(), digits.len() - 1);
        assert(digits.drop_last().take(digits.len() - 1) =~= digits.drop_last());
        assert(timestamp::is_digit(digits.last()));
    }
}

/// Digits behind digits shift these to the left.
proof fn lemma_number_concat(a: Seq<char>, b: Seq<char>)
    ensures
        number_of(a + b) == number_of(a) * pow10(b.len() as int) + number_of(b),
    decreases b.len(),
{
    if b.len() == 0 {
        assert(a + b =~= a);
    } else {
        lemma_number_concat(a, b.drop_last());
        assert((a + b).drop_last() =~= a + b.drop_last());
        let p = pow10(b.len() - 1);
        assert(10 * (number_of(a) * p) == number_of(a) * (10 * p)) by (nonlinear_arith);
    }
}

/// The digits of a number spell it.
proof fn lemma_digits_spell(n: int)
    requires
        n >= 0,
    ensures
        digits_of(n).len() > 0,
        all_digits(digits_of(n)),
        number_of(digits_of(n)) == n,
    decreases n,
{
    if n < 10 {
        reveal_with_fuel(number_of, 2);
        assert(digits_of(n).drop_last() =~= Seq::<char>::empty());
    } else {
        lemma_digits_spell(n / 10);
        assert(digits_of(n).drop_last() =~= digits_of(n / 10));
    }
}

/// As many digits as a number needs spell it.
proof fn lemma_fixed_spell(n: int, width: int)
    requires
        width >= 0,
        0 <= n < pow10(width),
    ensures
        fixed_digits(n, width).len() == width,
        all_digits(fixed_digits(n, width)),
        number_of(fixed_digits(n, width)) == n,
    decreases width,
{
    if width > 0 {
        lemma_fixed_spell(n / 10, width - 1);
        assert(fixed_digits(n, width).drop_last() =~= fixed_digits(n / 10, width - 1));
    }
}

/// Only zeros are dropped from the end.
proof fn lemma_dropped_zeros(s: Seq<char>)
    requires
        all_digits(s),
    ensures
        without_trailing_zeros(s).len() <= s.len(),
        all_digits(without_trailing_zeros(s)),
        without_trailing_zeros(s) + zeros(s.len() - without_trailing_zeros(s).len()) == s,
        number_of(s) > 0 ==> without_trailing_zeros(s).len() > 0,
    decreases s.len(),
{
    if s.len() > 0 && s.last() == '0' {
        let t = s.drop_last();
        assert forall|i: int| 0 <= i < t.len() implies timestamp::is_digit(#[trigger] t[i]) by {
            assert(t[i] == s[i]);
        }
        lemma_dropped_zeros(t);
        let w = without_trailing_zeros(t);
        assert(s =~= t.push('0'));
        assert(w + zeros(s.len() - w.len()) =~= (w + zeros(t.len() - w.len())).push('0'));
    } else {
        assert(s + zeros(0) =~= s);
    }
}

/// Digits are followed by the decimal point where one stands behind them.
proof fn lemma_point_behind_digits(whole: Seq<char>, rest: Seq<char>)
    requires
        all_digits(whole),
        rest.len() > 0 ==> rest[0] == '.',
    ensures
        point_position(whole + rest) == whole.len(),
    decreases whole.len(),
{
    if whole.len() == 0 {
        assert(whole + rest =~= rest);
    } else {
        let t = whole.drop_first();
        assert forall|i: int| 0 <= i < t.len() implies timestamp::is_digit(#[trigger] t[i]) by {
            assert(t[i] == whole[i + 1]);
        }
        lemma_point_behind_digits(t, rest);
        assert((whole + rest).drop_first() =~= t + rest);
        assert(timestamp::is_digit(whole[0]));
        assert((whole + rest)[0] == whole[0]);
    }
}

/// The decimal point stands within the text, and only at a `.`.
proof fn lemma_point_bounds(s: Seq<char>)
    ensures
        0 <= point_position(s) <= s.len(),
        point_position(s) < s.len() ==> s[point_position(s)] == '.',
        forall|i: int| 0 <= i < point_position(s) ==> s[i] != '.',
    decreases s.len(),
{
    if s.len() > 0 && s[0] != '.' {
        lemma_point_bounds(s.drop_first());
        let p = point_position(s.drop_first());
        assert forall|i: int| 0 <= i < 1 + p implies s[i] != '.' by {
            if i > 0 {
                assert(s[i] == s.drop_first()[i - 1]);
            }
        }
    }
}

/// The canonical text of a positive amount parses back to it, so an amount that
/// is stored in canonical form and read again keeps its value and its text.
pub proof fn lemma_amount_reads_back(stroops: int)
    requires
        0 < stroops <= i64::MAX,
    ensures
        stroops_of(amount_text(stroops)) == Some(stroops),
{
    let whole = digits_of(stroops / 10_000_000);
    let fraction = stroops % 10_000_000;
    let s = amount_text(stroops);
    lemma_digits_spell(stroops / 10_000_000);
    reveal_with_fuel(pow10, 8);
    assert(pow10(7) == 10_000_000);
    if fraction == 0 {
        lemma_point_behind_digits(whole, Seq::empty());
        assert(whole + Seq::<char>::empty() =~= whole);
        assert(whole_part(s) =~= whole);
        assert(stroop_digits(s) =~= whole + zeros(7));
        lemma_number_concat(whole, zeros(7));
        lemma_zeros(7);
    } else {
        let full = fixed_digits(fraction, 7);
        lemma_fixed_spell(fraction, 7);
        let places = without_trailing_zeros(full);
        lemma_dropped_zeros(full);
        let rest = seq!['.'] + places;
        lemma_point_behind_digits(whole, rest);
        assert(s =~= whole + rest);
        assert(whole_part(s) =~= whole);
        assert(fraction_part(s) =~= places);
        assert(stroop_digits(s) =~= whole + full);
        lemma_number_concat(whole, full);
    }
}

/// Powers of ten multiply by adding their exponents.
pub proof fn lemma_pow10_adds(a: int, b: int)
    requires
        0 <= a,
        0 <= b,
    ensures
        pow10(a) * pow10(b) == pow10(a + b),
    decreases b,
{
    if b > 0 {
        lemma_pow10_adds(a, b - 1);
        let (x, y) = (pow10(a), pow10(b - 1));
        assert(x * (10 * y) == 10 * (x * y)) by (nonlinear_arith);
    }
}

/// Zeros spell zero.
proof fn lemma_zeros(n: int)
    requires
        n >= 0,
    ensures
        number_of(zeros(n)) == 0,
        zeros(n).len() == n,
    decreases n,
{
    if n > 0 {
        lemma_zeros(n - 1);
        assert(zeros(n).drop_last() =~= zeros(n - 1));
    }
}

/// A further zero behind the decimal point, where there is room for it, does not
/// change an amount.
pub proof fn lemma_trailing_zero_is_ignored(s: Seq<char>)
    requires
        is_decimal(s),
        1 <= fraction_part(s).len() < 7,
    ensures
        stroops_of(s.push('0')) == stroops_of(s),
{
    lemma_point_bounds(s);
    let t = s.push('0');
    let p = point_position(s);
    let rest = seq!['.'] + fraction_part(s).push('0');
    lemma_point_behind_digits(whole_part(s), rest);
    assert(t =~= whole_part(s) + rest);
    assert(whole_part(t) =~= whole_part(s));
    assert(fraction_part(t) =~= fraction_part(s).push('0'));
    assert(stroop_digits(t) =~= stroop_digits(s));
}

/// An amount without decimal point equals the one with `.0` behind it.
pub proof fn lemma_point_zero_is_ignored(s: Seq<char>)
    requires
        is_decimal(s),
        fraction_part(s).len() == 0,
    ensures
        stroops_of(s + seq!['.', '0']) == stroops_of(s),
{
    lemma_point_bounds(s);
    assert(whole_part(s) =~= s);
    let t = s + seq!['.', '0'];
    lemma_point_behind_digits(s, seq!['.', '0']);
    assert(whole_part(t) =~= s);
    assert(fraction_part(t) =~= seq!['0']);
    assert(stroop_digits(t) =~= stroop_digits(s));
}

/// Decimal digits spell a number: each counts ten times as much as the one behind it.
pub proof fn law_digits_spell_a_number(s: Seq<char>, c: char)
    ensures
        number_of(Seq::empty()) == 0,
        '0' <= c <= '9' ==> number_of(s.push(c)) == 10 * number_of(s) + (c as int - '0' as int),
{
    assert(s.push(c).drop_last() =~= s);
}

/// An amount without a decimal point is that many units of ten million stroops, where
/// this is positive and fits in 64 bits.
pub proof fn law_whole_amount(whole: Seq<char>)
    requires
        whole.len() > 0,
        forall|i: int| 0 <= i < whole.len() ==> '0' <= (#[trigger] whole[i]) <= '9',
    ensures
        stroops_of(whole) == (if 0 < number_of(whole) * 10_000_000 <= 0x7fff_ffff_ffff_ffff {
            Some(number_of(whole) * 10_000_000)
        } else {
            None
        }),
{
    assert(all_digits(whole));
    lemma_point_behind_digits(whole, Seq::empty());
    assert(whole + Seq::<char>::empty() =~= whole);
    assert(whole_part(whole) =~= whole);
    lemma_zeros(7);
    lemma_number_concat(whole, zeros(7));
    assert(stroop_digits(whole) =~= whole + zeros(7));
    reveal_with_fuel(pow10, 8);
}

/// An amount with one to seven decimal places is its whole units and what the decimal
/// places add, where this is positive and fits in 64 bits.
pub proof fn law_decimal_amount(whole: Seq<char>, fraction: Seq<char>)
    requires
        whole.len() > 0,
        1 <= fraction.len() <= 7,
        forall|i: int| 0 <= i < whole.len() ==> '0' <= (#[trigger] whole[i]) <= '9',
        forall|i: int| 0 <= i < fraction.len() ==> '0' <= (#[trigger] fraction[i]) <= '9',
    ensures
        ({
            let n = number_of(whole) * 10_000_000 + number_of(fraction) * pow10(
                7 - fraction.len(),
            );
            stroops_of(whole + seq!['.'] + fraction) == (if 0 < n <= 0x7fff_ffff_ffff_ffff {
                Some(n)
            } else {
                None
            })
        }),
{
    let s = whole + seq!['.'] + fraction;
    let rest = seq!['.'] + fraction;
    assert(all_digits(whole) && all_digits(fraction));
    lemma_point_behind_digits(whole, rest);
    assert(s =~= whole + rest);
    assert(whole_part(s) =~= whole);
    assert(fraction_part(s) =~= fraction);
    let k = 7 - fraction.len();
    lemma_zeros(k);
    lemma_number_concat(whole, fraction);
    lemma_number_concat(whole + fraction, zeros(k));
    reveal_with_fuel(pow10, 8);
    assert(stroop_digits(s) =~= whole + fraction + zeros(k));
    let (w, f) = (number_of(whole), number_of(fraction));
    let (a, b) = (pow10(fraction.len() as int), pow10(k));
    lemma_pow10_adds(fraction.len() as int, k);
    assert(a * b == 10_000_000);
    assert((w * a + f) * b == w * (a * b) + f * b) by (nonlinear_arith);
}

/// Nothing else is an amount: one that is read has digits, and where it has a decimal
/// point, one to seven digits behind it.
pub proof fn law_amount_is_a_decimal(s: Seq<char>) -> (r: (Seq<char>, Seq<char>))
    requires
        stroops_of(s) is Some,
    ensures
        r.0.len() > 0,
        forall|i: int| 0 <= i < r.0.len() ==> '0' <= (#[trigger] r.0[i]) <= '9',
        forall|i: int| 0 <= i < r.1.len() ==> '0' <= (#[trigger] r.1[i]) <= '9',
        r.1.len() == 0 ==> s == r.0,
        r.1.len() > 0 ==> r.1.len() <= 7 && s == r.0 + seq!['.'] + r.1,
{
    lemma_point_bounds(s);
    let (w, f) = (whole_part(s), fraction_part(s));
    assert(timestamp::is_digit(w[0]));
    assert forall|i: int| 0 <= i < w.len() implies '0' <= (#[trigger] w[i]) <= '9' by {
        assert(timestamp::is_digit(w[i]));
    }
    assert forall|i: int| 0 <= i < f.len() implies '0' <= (#[trigger] f[i]) <= '9' by {
        assert(timestamp::is_digit(f[i]));
    }
    if f.len() > 0 {
        assert(s =~= w + seq!['.'] + f);
    } else {
        assert(s =~= w);
    }
    (w, f)
}

/// The text of an amount is the shortest: no zero stands at the end of its decimal
/// places and none before its units, and there is no point without decimal places. That
/// of a negative amount is that of the positive one behind a minus.
pub proof fn law_amount_text_is_shortest(stroops: int)
    requires
        stroops > 0,
    ensures
        ({
            let t = amount_text(stroops);
            &&& t.len() > 0
            &&& t.contains('.') ==> t.last() != '0' && t.last() != '.'
            &&& t[0] == '0' ==> t.len() > 1 && t[1] == '.'
            &&& t[0] != '.'
            &&& amount_text(-stroops) == seq!['-'] + t
        }),
        amount_text(0) == seq!['0'],
{
    let units = stroops / 10_000_000;
    let fraction = stroops % 10_000_000;
    let whole = digits_of(units);
    let t = amount_text(stroops);
    lemma_digits_spell(units);
    lemma_no_leading_zero(units);
    assert(timestamp::is_digit(whole[0]));
    assert(digits_of(0) =~= seq!['0']);
    if fraction == 0 {
        assert(t == whole);
        if t.contains('.') {
            let i = choose|i: int| 0 <= i < t.len() && t[i] == '.';
            assert(timestamp::is_digit(whole[i]));
        }
    } else {
        reveal_with_fuel(pow10, 8);
        lemma_fixed_spell(fraction, 7);
        let f = fixed_digits(fraction, 7);
        lemma_dropped_zeros(f);
        lemma_last_digit_kept(f);
        let g = without_trailing_zeros(f);
        assert(t == whole + seq!['.'] + g);
        assert(t.last() == g.last());
        assert(timestamp::is_digit(g[g.len() - 1]));
        assert(t[0] == whole[0]);
        if units == 0 {
            assert(t[1] == '.');
        }
    }
}

/// A positive number has no leading zero.
proof fn lemma_no_leading_zero(n: int)
    requires
        n >= 0,
    ensures
        digits_of(n).len() > 0,
        n > 0 ==> digits_of(n)[0] != '0',
        n == 0 ==> digits_of(n) == seq!['0'],
    decreases n,
{
    if n >= 10 {
        lemma_no_leading_zero(n / 10);
    } else {
        assert(digits_of(n) =~= seq![timestamp::digit(n)]);
    }
}

/// What stays when trailing zeros are dropped does not end in one.
proof fn lemma_last_digit_kept(s: Seq<char>)
    ensures
        without_trailing_zeros(s).len() > 0 ==> without_trailing_zeros(s).last() != '0',
    decreases s.len(),
{
    if s.len() > 0 && s.last() == '0' {
        lemma_last_digit_kept(s.drop_last());
    }
}

} // verus!
