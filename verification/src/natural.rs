//! Natural numbers of any size, as decimal digits with the lowest one first.

use vstd::prelude::*;

verus! {

pub open spec fn power_of_ten(e: nat) -> nat
    decreases e,
{
    if e == 0 {
        1
    } else {
        10 * power_of_ten((e - 1) as nat)
    }
}

/// The digit at place `i`: zero beyond the last one.
pub open spec fn digit_at(s: Seq<u8>, i: nat) -> nat {
    if i < s.len() {
        s[i as int] as nat
    } else {
        0
    }
}

/// The number that the lowest `i` digits denote.
pub open spec fn low_value(s: Seq<u8>, i: nat) -> nat
    decreases i,
{
    if i == 0 {
        0
    } else {
        low_value(s, (i - 1) as nat) + digit_at(s, (i - 1) as nat) * power_of_ten((i - 1) as nat)
    }
}

/// The number that the digits denote.
pub open spec fn amount(s: Seq<u8>) -> nat {
    low_value(s, s.len())
}

pub open spec fn are_digits(s: Seq<u8>) -> bool {
    forall|i: int| 0 <= i < s.len() ==> #[trigger] s[i] < 10
}

pub proof fn lemma_low_value_push(s: Seq<u8>, d: u8, i: nat)
    requires
        i <= s.len(),
    ensures
        low_value(s.push(d), i) == low_value(s, i),
    decreases i,
{
    if i > 0 {
        lemma_low_value_push(s, d, (i - 1) as nat);
    }
}

/// The digit pushed last counts at the highest place.
pub proof fn lemma_amount_push(s: Seq<u8>, d: u8)
    ensures
        amount(s.push(d)) == amount(s) + d * power_of_ten(s.len()),
{
    lemma_low_value_push(s, d, s.len());
}

/// The first digit counts once, the others ten times.
pub proof fn lemma_amount_first(s: Seq<u8>)
    requires
        s.len() > 0,
    ensures
        amount(s) == s[0] + 10 * amount(s.drop_first()),
{
    lemma_low_value_first(s, s.len());
}

proof fn lemma_low_value_first(s: Seq<u8>, i: nat)
    requires
        0 < i <= s.len(),
    ensures
        low_value(s, i) == s[0] + 10 * low_value(s.drop_first(), (i - 1) as nat),
    decreases i,
{
    if i > 1 {
        let j = (i - 2) as nat;
        lemma_low_value_first(s, (i - 1) as nat);
        assert(s.drop_first()[j as int] == s[(j + 1) as int]);
        let d = s[(j + 1) as int];
        let p = power_of_ten(j);
        assert(d * (10 * p) == 10 * (d * p)) by (nonlinear_arith);
    } else {
        assert(low_value(s, 0) == 0);
        assert(power_of_ten(0) == 1);
    }
}

proof fn lemma_low_value_beyond(s: Seq<u8>, i: nat)
    requires
        i >= s.len(),
    ensures
        low_value(s, i) == amount(s),
    decreases i,
{
    if i > s.len() {
        lemma_low_value_beyond(s, (i - 1) as nat);
        assert(0 * power_of_ten((i - 1) as nat) == 0);
    }
}

pub proof fn lemma_power_of_ten_positive(e: nat)
    ensures
        power_of_ten(e) > 0,
    decreases e,
{
    if e > 0 {
        lemma_power_of_ten_positive((e - 1) as nat);
    }
}

proof fn lemma_low_value_bound(s: Seq<u8>, i: nat)
    requires
        are_digits(s),
    ensures
        low_value(s, i) < power_of_ten(i),
    decreases i,
{
    if i > 0 {
        let p = power_of_ten((i - 1) as nat);
        lemma_low_value_bound(s, (i - 1) as nat);
        assert(digit_at(s, (i - 1) as nat) * p <= 9 * p) by (nonlinear_arith)
            requires
                digit_at(s, (i - 1) as nat) <= 9,
        ;
    }
}

fn digit(v: &Vec<u8>, i: usize) -> (d: u8)
    ensures
        d == digit_at(v@, i as nat),
        are_digits(v@) ==> d < 10,
{
    if i < v.len() {
        v[i]
    } else {
        0
    }
}

/// Whether the number is zero.
pub(crate) fn is_zero(v: &Vec<u8>) -> (r: bool)
    ensures
        r == (amount(v@) == 0),
{
    for i in 0..v.len()
        invariant
            low_value(v@, i as nat) == 0,
    {
        if v[i] != 0 {
            proof {
                lemma_low_value_grows(v@, (i + 1) as nat, v@.len());
                lemma_power_of_ten_positive(i as nat);
                assert(v@[i as int] * power_of_ten(i as nat) > 0) by (nonlinear_arith)
                    requires
                        v@[i as int] > 0,
                        power_of_ten(i as nat) > 0,
                ;
            }
            return false;
        }
        assert(0 * power_of_ten(i as nat) == 0);
    }
    true
}

proof fn lemma_low_value_grows(s: Seq<u8>, i: nat, j: nat)
    requires
        i <= j,
    ensures
        low_value(s, i) <= low_value(s, j),
    decreases j,
{
    if i < j {
        lemma_low_value_grows(s, i, (j - 1) as nat);
        assert(0 <= digit_at(s, (j - 1) as nat) * power_of_ten((j - 1) as nat))
            by (nonlinear_arith);
    }
}

/// Twice the number.
pub(crate) fn doubled(v: &Vec<u8>) -> (r: Vec<u8>)
    requires
        are_digits(v@),
    ensures
        are_digits(r@),
        amount(r@) == 2 * amount(v@),
{
    let mut r: Vec<u8> = Vec::new();
    let mut carry: u8 = 0;
    for i in 0..v.len()
        invariant
            are_digits(v@),
            are_digits(r@),
            r.len() == i,
            carry <= 1,
            amount(r@) + carry * power_of_ten(i as nat) == 2 * low_value(v@, i as nat),
    {
        let t: u8 = v[i] * 2 + carry;
        proof {
            let p = power_of_ten(i as nat);
            lemma_amount_push(r@, (t % 10) as u8);
            assert((t % 10) * p + (t / 10) * (10 * p) == 2 * (v@[i as int] * p) + carry * p)
                by (nonlinear_arith)
                requires
                    t == 2 * v@[i as int] + carry,
                    t == 10 * (t / 10) + t % 10,
            ;
        }
        r.push(t % 10);
        carry = t / 10;
    }
    proof {
        lemma_amount_push(r@, carry);
    }
    r.push(carry);
    r
}

/// Whether `a >= b`.
pub(crate) fn at_least(a: &Vec<u8>, b: &Vec<u8>) -> (r: bool)
    requires
        are_digits(a@),
        are_digits(b@),
    ensures
        r == (amount(a@) >= amount(b@)),
{
    let length: usize = if a.len() > b.len() { a.len() } else { b.len() };
    let mut r: bool = true;
    for i in 0..length
        invariant
            are_digits(a@),
            are_digits(b@),
            r == (low_value(a@, i as nat) >= low_value(b@, i as nat)),
    {
        let x: u8 = digit(a, i);
        let y: u8 = digit(b, i);
        proof {
            let p = power_of_ten(i as nat);
            lemma_low_value_bound(a@, i as nat);
            lemma_low_value_bound(b@, i as nat);
            assert(x > y ==> x * p >= y * p + p) by (nonlinear_arith);
            assert(x < y ==> x * p + p <= y * p) by (nonlinear_arith);
        }
        if x > y {
            r = true;
        } else if x < y {
            r = false;
        }
    }
    proof {
        lemma_low_value_beyond(a@, length as nat);
        lemma_low_value_beyond(b@, length as nat);
    }
    r
}

/// `a - b`.
pub(crate) fn less_by(a: &Vec<u8>, b: &Vec<u8>) -> (r: Vec<u8>)
    requires
        are_digits(a@),
        are_digits(b@),
        amount(a@) >= amount(b@),
    ensures
        are_digits(r@),
        amount(r@) == amount(a@) - amount(b@),
{
    let length: usize = if a.len() > b.len() { a.len() } else { b.len() };
    let mut r: Vec<u8> = Vec::new();
    let mut borrow: u8 = 0;
    for i in 0..length
        invariant
            are_digits(a@),
            are_digits(b@),
            are_digits(r@),
            r.len() == i,
            borrow <= 1,
            amount(r@) + low_value(b@, i as nat) == low_value(a@, i as nat) + borrow * power_of_ten(
                i as nat,
            ),
    {
        let x: u8 = digit(a, i);
        let y: u8 = digit(b, i);
        let t: u8 = x + 10 - y - borrow;
        let next: u8 = if t >= 10 { 0 } else { 1 };
        let d: u8 = if t >= 10 { t - 10 } else { t };
        proof {
            let p = power_of_ten(i as nat);
            lemma_amount_push(r@, d);
            assert(d * p + y * p + borrow * p == x * p + next * (10 * p)) by (nonlinear_arith)
                requires
                    d + y + borrow == x + next * 10,
            ;
        }
        r.push(d);
        borrow = next;
    }
    proof {
        lemma_low_value_beyond(a@, length as nat);
        lemma_low_value_beyond(b@, length as nat);
        lemma_low_value_bound(r@, length as nat);
        let p = power_of_ten(length as nat);
        assert(borrow * p >= p || borrow == 0) by (nonlinear_arith)
            requires
                borrow == 0 || borrow == 1,
        ;
        assert(0 * p == 0);
    }
    r
}

} // verus!
