//! Numbers as decimal text.

use vstd::prelude::*;
use vstd::arithmetic::power2::*;
use vstd::arithmetic::div_mod::*;
use crate::double;
use crate::double::Double;
use crate::natural;
use crate::rounding;
use crate::rounding::INFINITE_BITS;
use crate::text;

verus! {

pub open spec fn is_digit(c: char) -> bool {
    '0' <= c <= '9'
}

pub open spec fn are_digits(s: Seq<char>) -> bool {
    forall|i: int| 0 <= i < s.len() ==> is_digit(#[trigger] s[i])
}

pub open spec fn digit_value(c: char) -> nat {
    (c as int - '0' as int) as nat
}

/// The number that decimal digits denote, the highest one first.
pub open spec fn digits_value(s: Seq<char>) -> nat
    decreases s.len(),
{
    if s.len() == 0 {
        0
    } else {
        10 * digits_value(s.drop_last()) + digit_value(s.last())
    }
}

/// The position of the first decimal point; the length where there is none.
pub open spec fn point(s: Seq<char>) -> int
    decreases s.len(),
{
    if s.len() == 0 || s[0] == '.' {
        0
    } else {
        1 + point(s.drop_first())
    }
}

/// The digits before the decimal point.
pub open spec fn whole_part(s: Seq<char>) -> Seq<char> {
    s.take(point(s))
}

/// The digits after the decimal point.
pub open spec fn fraction_part(s: Seq<char>) -> Seq<char> {
    if point(s) < s.len() {
        s.skip(point(s) + 1)
    } else {
        Seq::empty()
    }
}

/// Whether the text is digits, or digits, a point and digits.
pub open spec fn is_decimal(s: Seq<char>) -> bool {
    &&& whole_part(s).len() > 0
    &&& are_digits(whole_part(s))
    &&& point(s) < s.len() ==> fraction_part(s).len() > 0
    &&& are_digits(fraction_part(s))
}

/// The binary64 number nearest to what the text denotes.
pub open spec fn decimal_number(s: Seq<char>) -> Double {
    double::nearest(
        digits_value(whole_part(s) + fraction_part(s)),
        natural::power_of_ten(fraction_part(s).len()),
    )
}

pub open spec fn digit_text(d: nat) -> char {
    (48 + d) as char
}

/// The decimal digits of a number.
pub open spec fn number_text(n: nat) -> Seq<char>
    decreases n,
{
    if n < 10 {
        seq![digit_text(n)]
    } else {
        number_text(n / 10).push(digit_text(n % 10))
    }
}

/// The decimal digits of an integer, behind a sign where it is negative.
pub open spec fn integer_text(n: int) -> Seq<char> {
    if n < 0 {
        seq!['-'] + number_text((-n) as nat)
    } else {
        number_text(n as nat)
    }
}

/// A number in tenths with one digit after the point.
pub open spec fn tenths_text(tenths: nat) -> Seq<char> {
    number_text(tenths / 10) + seq!['.', digit_text(tenths % 10)]
}

/// The number with one digit after the point, rounded to the nearest such text,
/// a tie going to the even digit.
pub open spec fn one_decimal(x: Double) -> Seq<char> {
    let unsigned = tenths_text(
        rounding::nearest_whole(double::units_of(x.magnitude()) * 10, double::one_in_units()),
    );
    if x.is_nan() {
        "NaN"@
    } else if x.is_infinite() {
        if x.is_negative() {
            "-inf"@
        } else {
            "inf"@
        }
    } else if x.is_negative() {
        seq!['-'] + unsigned
    } else {
        unsigned
    }
}

/// Digits are a decimal number, and so are digits, a point and digits.
pub proof fn lemma_is_decimal(whole: Seq<char>, fraction: Seq<char>)
    requires
        whole.len() > 0,
        are_digits(whole),
        are_digits(fraction),
    ensures
        is_decimal(whole),
        fraction.len() > 0 ==> is_decimal(whole + seq!['.'] + fraction),
{
    lemma_point_of(whole, Seq::empty());
    lemma_point_of(whole, seq!['.'] + fraction);
    assert(whole + Seq::<char>::empty() == whole);
    assert(whole + (seq!['.'] + fraction) == whole + seq!['.'] + fraction);
    assert(whole_part(whole) == whole);
    assert(whole_part(whole + seq!['.'] + fraction) == whole);
    assert(fraction_part(whole + seq!['.'] + fraction) == fraction);
}

/// The decimal point comes right behind the digits before it.
pub proof fn lemma_point_of(whole: Seq<char>, rest: Seq<char>)
    requires
        are_digits(whole),
        rest.len() > 0 ==> rest[0] == '.',
    ensures
        point(whole + rest) == whole.len(),
    decreases whole.len(),
{
    if whole.len() > 0 {
        let s = whole + rest;
        assert(is_digit(whole[0]));
        assert(s.drop_first() == whole.drop_first() + rest);
        assert forall|i: int| 0 <= i < whole.drop_first().len() implies is_digit(
            #[trigger] whole.drop_first()[i],
        ) by {
            assert(is_digit(whole[i + 1]));
        }
        lemma_point_of(whole.drop_first(), rest);
    }
}

/// The first digit counts at the highest place.
proof fn lemma_digits_value_first(s: Seq<char>)
    requires
        s.len() > 0,
    ensures
        digits_value(s) == digit_value(s[0]) * natural::power_of_ten((s.len() - 1) as nat)
            + digits_value(s.drop_first()),
    decreases s.len(),
{
    reveal_with_fuel(digits_value, 2);
    if s.len() == 1 {
        assert(s.drop_last().len() == 0);
        assert(s.drop_first().len() == 0);
        assert(s.last() == s[0]);
        assert(natural::power_of_ten(0) == 1);
        assert(digit_value(s[0]) * natural::power_of_ten(0) == digit_value(s[0]))
            by (nonlinear_arith)
            requires
                natural::power_of_ten(0) == 1,
        ;
    } else {
        let rest = s.drop_last();
        lemma_digits_value_first(rest);
        assert(rest.drop_first() == s.drop_first().drop_last());
        assert(s.drop_first().last() == s.last());
        let first = digit_value(s[0]);
        let p = natural::power_of_ten((s.len() - 2) as nat);
        assert(natural::power_of_ten((s.len() - 1) as nat) == 10 * p);
        assert(10 * (first * p) == first * (10 * p)) by (nonlinear_arith);
    }
}

/// The digits of a text, the lowest one first.
fn digits_of(chars: &Vec<char>) -> (digits: Vec<u8>)
    requires
        are_digits(chars@),
    ensures
        natural::are_digits(digits@),
        natural::amount(digits@) == digits_value(chars@),
{
    let mut digits: Vec<u8> = Vec::new();
    let length: usize = chars.len();
    for i in 0..length
        invariant
            length == chars.len(),
            are_digits(chars@),
            natural::are_digits(digits@),
            digits.len() == i,
            natural::amount(digits@) == digits_value(chars@.skip(length - i)),
    {
        let c: char = chars[length - 1 - i];
        assert(is_digit(chars@[length - 1 - i]));
        let d: u8 = (c as u32 - '0' as u32) as u8;
        proof {
            let s = chars@.skip(length - 1 - i);
            lemma_digits_value_first(s);
            assert(s.drop_first() == chars@.skip(length - i));
            natural::lemma_amount_push(digits@, d);
        }
        digits.push(d);
    }
    assert(chars@.skip(0) == chars@);
    digits
}

/// The position of the first decimal point.
fn find_point(chars: &Vec<char>) -> (p: usize)
    ensures
        p == point(chars@),
        p <= chars.len(),
{
    assert(chars@.skip(0) == chars@);
    for i in 0..chars.len()
        invariant
            point(chars@) == i + point(chars@.skip(i as int)),
    {
        let ghost rest = chars@.skip(i as int);
        assert(rest[0] == chars@[i as int]);
        if chars[i] == '.' {
            return i;
        }
        assert(rest.drop_first() == chars@.skip(i + 1));
    }
    chars.len()
}

fn all_digits(chars: &Vec<char>) -> (r: bool)
    ensures
        r == are_digits(chars@),
{
    for i in 0..chars.len()
        invariant
            forall|j: int| 0 <= j < i ==> is_digit(#[trigger] chars@[j]),
    {
        if chars[i] < '0' || chars[i] > '9' {
            assert(!is_digit(chars@[i as int]));
            return false;
        }
    }
    true
}

/// The binary64 number nearest to a plain decimal text; `None` for any other text.
pub fn parse(source: &str) -> (r: Option<Double>)
    ensures
        r is Some <==> is_decimal(source@),
        r matches Some(x) ==> x == decimal_number(source@),
{
    proof {
        reveal(double::nearest);
    }
    let chars = text::characters(source);
    let p: usize = find_point(&chars);
    let mut whole: Vec<char> = Vec::new();
    for i in 0..p
        invariant
            p <= chars.len(),
            whole@ == chars@.take(i as int),
    {
        whole.push(chars[i]);
    }
    let mut fraction: Vec<char> = Vec::new();
    if p < chars.len() {
        for i in p + 1..chars.len()
            invariant
                p < chars.len(),
                fraction@ == chars@.subrange(p + 1, i as int),
        {
            fraction.push(chars[i]);
        }
        assert(fraction@ == chars@.skip(p + 1));
        if fraction.len() == 0 {
            return None;
        }
    }
    assert(whole@ == whole_part(source@));
    assert(fraction@ == fraction_part(source@));
    if whole.len() == 0 || !all_digits(&whole) || !all_digits(&fraction) {
        return None;
    }
    let mut unit: Vec<u8> = Vec::new();
    let mut all: Vec<char> = whole;
    for i in 0..fraction.len()
        invariant
            are_digits(fraction@),
            are_digits(all@),
            all@ == whole_part(source@) + fraction@.take(i as int),
            unit.len() == i,
            forall|j: int| 0 <= j < i ==> unit@[j] == 0,
            natural::amount(unit@) == 0,
    {
        proof {
            natural::lemma_amount_push(unit@, 0);
            assert(is_digit(fraction@[i as int]));
        }
        all.push(fraction[i]);
        unit.push(0);
    }
    assert(fraction@.take(fraction.len() as int) == fraction@);
    proof {
        natural::lemma_amount_push(unit@, 1);
        natural::lemma_power_of_ten_positive(fraction@.len());
    }
    unit.push(1);
    let digits = digits_of(&all);
    if natural::is_zero(&digits) {
        proof {
            double::lemma_round_zero(natural::power_of_ten(fraction@.len()));
            assert(0 * double::one_in_units() == 0);
        }
        return Some(Double { bits: 0 });
    }
    Some(Double { bits: rounding::round_natural_ratio(&digits, &unit) })
}

/// The character of a digit.
fn digit_char(d: u8) -> (c: char)
    requires
        d < 10,
    ensures
        c == digit_text(d as nat),
{
    (48 + d) as char
}

/// The decimal digits of a number.
pub fn number(n: u64) -> (r: String)
    ensures
        r@ == number_text(n as nat),
    decreases n,
{
    let mut r: String = if n < 10 { String::new() } else { number(n / 10) };
    r.push(digit_char((n % 10) as u8));
    r
}

/// The decimal digits of an integer, behind a sign where it is negative.
pub fn integer(n: i32) -> (r: String)
    ensures
        r@ == integer_text(n as int),
{
    if n < 0 {
        let mut r = String::new();
        r.push('-');
        r.append(number((-(n as i64)) as u64).as_str());
        r
    } else {
        number(n as u64)
    }
}

/// The digits of a number, the lowest one first.
fn natural_of(n: u64) -> (digits: Vec<u8>)
    ensures
        natural::are_digits(digits@),
        natural::amount(digits@) == n,
{
    let mut digits: Vec<u8> = Vec::new();
    let mut rest: u64 = n;
    assert(rest * natural::power_of_ten(0) == n) by (nonlinear_arith)
        requires
            natural::power_of_ten(0) == 1,
            rest == n,
    ;
    while rest > 0
        invariant
            natural::are_digits(digits@),
            natural::amount(digits@) + rest * natural::power_of_ten(digits@.len()) == n,
        decreases rest,
    {
        let d: u8 = (rest % 10) as u8;
        proof {
            let p = natural::power_of_ten(digits@.len());
            natural::lemma_amount_push(digits@, d);
            assert(d * p + (rest / 10) * (10 * p) == rest * p) by (nonlinear_arith)
                requires
                    rest == 10 * (rest / 10) + d,
            ;
        }
        digits.push(d);
        rest = rest / 10;
    }
    assert(0 * natural::power_of_ten(digits@.len()) == 0);
    digits
}

/// The decimal digits of a number that is given by its digits.
fn natural_text(digits: &Vec<u8>) -> (r: String)
    requires
        natural::are_digits(digits@),
    ensures
        r@ == number_text(natural::amount(digits@)),
{
    let mut r: String = String::new();
    let mut i: usize = digits.len();
    let ghost mut high: nat = 0;
    assert(digits@.skip(i as int) == Seq::<u8>::empty());
    while i > 0
        invariant
            i <= digits.len(),
            natural::are_digits(digits@),
            high == natural::amount(digits@.skip(i as int)),
            r@ == if high == 0 {
                Seq::<char>::empty()
            } else {
                number_text(high)
            },
            r@.len() == 0 <==> high == 0,
        decreases i,
    {
        i = i - 1;
        let d: u8 = digits[i];
        proof {
            natural::lemma_amount_first(digits@.skip(i as int));
            assert(digits@.skip(i as int).drop_first() == digits@.skip(i + 1));
            high = 10 * high + d as nat;
        }
        if r.as_str().is_empty() && d == 0 {
        } else {
            r.push(digit_char(d));
        }
    }
    assert(digits@.skip(0) == digits@);
    if r.as_str().is_empty() {
        r.push('0');
    }
    r
}

/// The number with one digit after the point.
pub fn with_one_decimal(x: Double) -> (r: String)
    ensures
        r@ == one_decimal(x),
{
    let m: u64 = x.magnitude_bits();
    if m > INFINITE_BITS {
        return "NaN".to_owned();
    }
    if m == INFINITE_BITS {
        return if x.sign() { "-inf".to_owned() } else { "inf".to_owned() };
    }
    let mut r: String = String::new();
    if x.sign() {
        r.push('-');
    }
    let ghost prefix = r@;
    let s: u64 = x.significand();
    let e: i32 = x.exponent();
    let ghost u = double::units_of(x.magnitude());
    let ghost one = double::one_in_units();
    proof {
        lemma2_to64();
        lemma2_to64_rest();
        lemma_pow2_pos(1074);
    }
    if e >= 1074 {
        let mut digits: Vec<u8> = natural_of(s);
        let mut i: i32 = 1074;
        assert(s * pow2(0) == s) by (nonlinear_arith)
            requires
                pow2(0) == 1,
        ;
        while i < e
            invariant
                1074 <= i <= e,
                natural::are_digits(digits@),
                natural::amount(digits@) == s * pow2((i - 1074) as nat),
            decreases e - i,
        {
            proof {
                lemma_pow2_unfold((i + 1 - 1074) as nat);
                assert(2 * (s * pow2((i - 1074) as nat)) == s * pow2((i + 1 - 1074) as nat))
                    by (nonlinear_arith)
                    requires
                        pow2((i + 1 - 1074) as nat) == 2 * pow2((i - 1074) as nat),
                ;
            }
            digits = natural::doubled(&digits);
            i = i + 1;
        }
        proof {
            let c = natural::amount(digits@);
            lemma_pow2_adds((e - 1074) as nat, 1074);
            assert(u * 10 == (c * 10) * one) by (nonlinear_arith)
                requires
                    u == s * pow2(e as nat),
                    c == s * pow2((e - 1074) as nat),
                    pow2((e - 1074) as nat) * one == pow2(e as nat),
            ;
            lemma_fundamental_div_mod_converse((u * 10) as int, one as int, (c * 10) as int, 0);
            assert((c * 10) / 10 == c);
            assert((c * 10) % 10 == 0);
        }
        r.append(natural_text(&digits).as_str());
        r.push('.');
        r.push('0');
        assert(r@ == prefix + tenths_text(rounding::nearest_whole(u * 10, one)));
    } else {
        let shift: u32 = (1074 - e) as u32;
        let p: u64 = s * 10;
        let mut tenths: u64 = 0;
        proof {
            lemma_pow2_pos(e as nat);
            lemma_pow2_pos(shift as nat);
            lemma_pow2_adds(shift as nat, e as nat);
            assert(u * 10 == p * pow2(e as nat)) by (nonlinear_arith)
                requires
                    u == s * pow2(e as nat),
                    p == s * 10,
            ;
            rounding::lemma_nearest_whole_scaled(p as nat, pow2(shift as nat), pow2(e as nat));
        }
        if shift <= 58 {
            let unit: u64 = rounding::power_of_two(shift) as u64;
            proof {
                rounding::lemma_pow2_le(shift as nat, 58);
            }
            let q: u64 = p / unit;
            let rest: u64 = p % unit;
            tenths = if 2 * rest < unit || (2 * rest == unit && q % 2 == 0) { q } else { q + 1 };
        } else {
            proof {
                rounding::lemma_pow2_le(58, shift as nat);
                lemma_fundamental_div_mod_converse(p as int, pow2(shift as nat) as int, 0, p as int);
            }
        }
        r.append(number(tenths / 10).as_str());
        r.push('.');
        r.push(digit_char((tenths % 10) as u8));
        assert(r@ == prefix + tenths_text(rounding::nearest_whole(u * 10, one)));
    }
    r
}

} // verus!
