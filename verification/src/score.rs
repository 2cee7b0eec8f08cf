//! Cohesion scores, compared exactly.
//!
//! A score is a quantity `(num / den) ^ (1 / root)`. Two scores are
//! compared without ever computing a root: both sides are raised to the
//! product of the two roots, which turns the comparison into one between
//! two products of integer powers. Those are computed in full, limb by limb.

use vstd::prelude::*;

verus! {

/// The weight of limb `i` of a little-endian number in base 2^64.
pub open spec fn weight(i: nat) -> nat
    decreases i,
{
    if i == 0 {
        1
    } else {
        0x1_0000_0000_0000_0000 * weight((i - 1) as nat)
    }
}

/// The number that little-endian limbs in base 2^64 stand for.
pub open spec fn value(limbs: Seq<u64>) -> nat
    decreases limbs.len(),
{
    if limbs.len() == 0 {
        0
    } else {
        value(limbs.drop_last()) + limbs.last() as nat * weight((limbs.len() - 1) as nat)
    }
}

/// `base` raised to `exp`.
pub open spec fn power(base: nat, exp: nat) -> nat
    decreases exp,
{
    if exp == 0 {
        1
    } else {
        base * power(base, (exp - 1) as nat)
    }
}

/// A cohesion score `(num / den) ^ (1 / root)`, kept as its three integers.
#[derive(Clone, Copy, Debug, PartialEq, Eq)]
pub struct Score {
    pub num: u64,
    pub den: u64,
    pub root: u128,
}

/// Whether score `a` is at least score `b`. For positive denominators and
/// roots, `(a.num / a.den) ^ (1 / a.root) >= (b.num / b.den) ^ (1 / b.root)`
/// holds exactly when, both sides raised to `a.root * b.root` and cleared of
/// denominators, `a.num ^ b.root * b.den ^ a.root >= b.num ^ a.root * a.den ^ b.root`.
pub open spec fn at_least_spec(a: Score, b: Score) -> bool {
    power(a.num as nat, b.root as nat) * power(b.den as nat, a.root as nat) >= power(
        b.num as nat,
        a.root as nat,
    ) * power(a.den as nat, b.root as nat)
}

/// The score of a single syllable: one tenth.
pub open spec fn floor_score() -> Score {
    Score { num: 1, den: 10, root: 1 }
}

/// The score below which nothing lies: zero.
pub open spec fn zero_score() -> Score {
    Score { num: 0, den: 1, root: 1 }
}

/// Of any two scores, one is at least the other.
pub proof fn lemma_at_least_total(a: Score, b: Score)
    ensures
        at_least_spec(a, b) || at_least_spec(b, a),
{
}

/// Every score is at least itself.
pub proof fn lemma_at_least_reflexive(a: Score)
    ensures
        at_least_spec(a, a),
{
}

/// With both roots one, scores compare as the fractions they are.
pub proof fn lemma_at_least_fractions(a: Score, b: Score)
    requires
        a.root == 1,
        b.root == 1,
    ensures
        at_least_spec(a, b) == (a.num * b.den >= b.num * a.den),
{
    reveal_with_fuel(power, 2);
    let an = power(a.num as nat, 1);
    let ad = power(a.den as nat, 1);
    let bn = power(b.num as nat, 1);
    let bd = power(b.den as nat, 1);
    assert(an == a.num && ad == a.den && bn == b.num && bd == b.den) by (nonlinear_arith)
        requires
            an == a.num * 1,
            ad == a.den * 1,
            bn == b.num * 1,
            bd == b.den * 1,
    ;
}

/// A power of a positive base is positive, and a power grows with its base:
/// strictly so for a positive exponent.
pub proof fn lemma_power_grows(x: nat, y: nat, e: nat)
    requires
        x <= y,
    ensures
        power(x, e) <= power(y, e),
        x > 0 ==> power(x, e) > 0,
        x < y && e > 0 ==> power(x, e) < power(y, e),
    decreases e,
{
    if e > 0 {
        lemma_power_grows(x, y, (e - 1) as nat);
        let px = power(x, (e - 1) as nat);
        let py = power(y, (e - 1) as nat);
        assert(x * px <= y * py) by (nonlinear_arith)
            requires
                x <= y,
                px <= py,
        ;
        assert(x > 0 ==> x * px > 0) by (nonlinear_arith)
            requires
                x > 0 ==> px > 0,
        ;
        if x < y {
            lemma_power_grows(y, y, (e - 1) as nat);
            assert(x * px < y * py) by (nonlinear_arith)
                requires
                    x < y,
                    px <= py,
                    py > 0,
            ;
        }
    }
}

/// With the same positive denominator and the same positive root, the
/// score with the greater numerator is the greater score.
pub proof fn lemma_at_least_by_numerator(a: Score, b: Score)
    requires
        a.den == b.den,
        a.root == b.root,
        a.den > 0,
        a.root > 0,
    ensures
        at_least_spec(a, b) == (a.num >= b.num),
{
    let r = a.root as nat;
    let d = power(a.den as nat, r);
    let pa = power(a.num as nat, r);
    let pb = power(b.num as nat, r);
    lemma_power_grows(a.den as nat, a.den as nat, r);
    if a.num >= b.num {
        lemma_power_grows(b.num as nat, a.num as nat, r);
        assert(pa * d >= pb * d) by (nonlinear_arith)
            requires
                pa >= pb,
                d > 0,
        ;
    } else {
        lemma_power_grows(a.num as nat, b.num as nat, r);
        assert(pa * d < pb * d) by (nonlinear_arith)
            requires
                pa < pb,
                d > 0,
        ;
    }
}

/// One tenth is at least zero, and zero is not at least one tenth.
pub proof fn lemma_floor_above_zero()
    ensures
        at_least_spec(floor_score(), zero_score()),
        !at_least_spec(zero_score(), floor_score()),
{
    let f = floor_score();
    let z = zero_score();
    reveal_with_fuel(power, 2);
    let f_num = power(f.num as nat, z.root as nat);
    let z_den = power(z.den as nat, f.root as nat);
    let z_num = power(z.num as nat, f.root as nat);
    let f_den = power(f.den as nat, z.root as nat);
    assert(f_num == 1 && z_den == 1 && z_num == 0 && f_den == 10);
    assert(f_num * z_den == 1 && z_num * f_den == 0) by (nonlinear_arith)
        requires
            f_num == 1 && z_den == 1 && z_num == 0 && f_den == 10,
    ;
}

/// A number of `n` limbs is below the weight of limb `n`.
proof fn lemma_value_bound(limbs: Seq<u64>)
    ensures
        value(limbs) < weight(limbs.len()),
    decreases limbs.len(),
{
    if limbs.len() > 0 {
        lemma_value_bound(limbs.drop_last());
        let w = weight((limbs.len() - 1) as nat);
        let v = value(limbs.drop_last());
        let x = limbs.last() as nat;
        assert(v + x * w < 0x1_0000_0000_0000_0000 * w) by (nonlinear_arith)
            requires
                v < w,
                x < 0x1_0000_0000_0000_0000,
        ;
    }
}

/// One limb more on top adds that limb at its weight.
proof fn lemma_value_push(limbs: Seq<u64>, top: u64)
    ensures
        value(limbs.push(top)) == value(limbs) + top as nat * weight(limbs.len()),
{
    assert(limbs.push(top).drop_last() =~= limbs);
}

/// One step of a multiplication by a single limb keeps the running sum.
proof fn lemma_scale_step(done: nat, carry: nat, w: nat, pre: nat, limb: nat, m: nat, lo: nat, hi: nat)
    requires
        done + carry * w == pre * m,
        limb * m + carry == hi * 0x1_0000_0000_0000_0000 + lo,
    ensures
        (done + lo * w) + hi * (0x1_0000_0000_0000_0000 * w) == (pre + limb * w) * m,
{
    assert((limb * m + carry) * w == (hi * 0x1_0000_0000_0000_0000 + lo) * w);
    assert((limb * m + carry) * w == limb * w * m + carry * w) by (nonlinear_arith);
    assert((hi * 0x1_0000_0000_0000_0000 + lo) * w == hi * (0x1_0000_0000_0000_0000 * w) + lo * w)
        by (nonlinear_arith);
    assert((pre + limb * w) * m == pre * m + limb * w * m) by (nonlinear_arith);
}

/// How one more limb on top decides a comparison whose lower limbs are
/// already compared.
proof fn lemma_compare_step(va: nat, vb: nat, x: nat, y: nat, w: nat)
    requires
        va < w,
        vb < w,
    ensures
        x > y ==> va + x * w > vb + y * w,
        x < y ==> va + x * w < vb + y * w,
        x == y ==> ((va + x * w >= vb + y * w) == (va >= vb)),
{
    assert(x > y ==> x * w >= y * w + w) by (nonlinear_arith);
    assert(x < y ==> y * w >= x * w + w) by (nonlinear_arith);
}

/// The product of a number and a single limb, one limb longer.
fn scale(a: &Vec<u64>, m: u64) -> (r: Vec<u64>)
    ensures
        value(r@) == value(a@) * m,
        r@.len() == a@.len() + 1,
{
    let mut out: Vec<u64> = Vec::new();
    let mut carry: u64 = 0;
    let mut i: usize = 0;
    assert(a@.take(0) =~= Seq::<u64>::empty());
    assert(value(out@) == 0 && value(a@.take(0)) == 0);
    assert(0 * weight(0) == 0 && 0 * m == 0);
    while i < a.len()
        invariant
            i <= a.len(),
            out@.len() == i,
            value(out@) + carry as nat * weight(i as nat) == value(a@.take(i as int)) * m,
        decreases a.len() - i,
    {
        let limb: u64 = a[i];
        assert(limb as int * m as int <= 0xFFFF_FFFF_FFFF_FFFF * 0xFFFF_FFFF_FFFF_FFFF)
            by (nonlinear_arith)
            requires
                0 <= limb as int <= 0xFFFF_FFFF_FFFF_FFFF,
                0 <= m as int <= 0xFFFF_FFFF_FFFF_FFFF,
        ;
        let t: u128 = (limb as u128) * (m as u128) + (carry as u128);
        let lo: u64 = (t % 0x1_0000_0000_0000_0000u128) as u64;
        let hi: u64 = (t / 0x1_0000_0000_0000_0000u128) as u64;
        proof {
            lemma_scale_step(
                value(out@),
                carry as nat,
                weight(i as nat),
                value(a@.take(i as int)),
                limb as nat,
                m as nat,
                lo as nat,
                hi as nat,
            );
            lemma_value_push(out@, lo);
            assert(a@.take(i + 1) =~= a@.take(i as int).push(limb));
            lemma_value_push(a@.take(i as int), limb);
        }
        out.push(lo);
        carry = hi;
        i += 1;
    }
    proof {
        lemma_value_push(out@, carry);
        assert(a@.take(a.len() as int) =~= a@);
    }
    out.push(carry);
    out
}

/// The product of a number and a power of a single limb, one limb longer
/// for each factor.
fn scale_by_power(a: Vec<u64>, m: u64, times: u128) -> (r: Vec<u64>)
    ensures
        value(r@) == value(a@) * power(m as nat, times as nat),
        r@.len() == a@.len() + times,
{
    let mut out: Vec<u64> = a;
    let mut k: u128 = 0;
    assert(value(out@) == value(a@) * power(m as nat, 0)) by (nonlinear_arith)
        requires
            out@ == a@,
            power(m as nat, 0) == 1,
    ;
    while k < times
        invariant
            k <= times,
            value(out@) == value(a@) * power(m as nat, k as nat),
            out@.len() == a@.len() + k,
        decreases times - k,
    {
        let ghost before = value(out@);
        out = scale(&out, m);
        proof {
            let p = power(m as nat, k as nat);
            assert(power(m as nat, (k + 1) as nat) == m as nat * p);
            assert(value(a@) * p * m == value(a@) * (m as nat * p)) by (nonlinear_arith);
        }
        k += 1;
    }
    out
}

/// Whether one number is at least another of the same number of limbs.
fn at_least_limbs(a: &Vec<u64>, b: &Vec<u64>) -> (r: bool)
    requires
        a@.len() == b@.len(),
    ensures
        r == (value(a@) >= value(b@)),
{
    let mut r: bool = true;
    let mut i: usize = 0;
    assert(a@.take(0) =~= Seq::<u64>::empty());
    assert(b@.take(0) =~= Seq::<u64>::empty());
    while i < a.len()
        invariant
            a@.len() == b@.len(),
            i <= a.len(),
            r == (value(a@.take(i as int)) >= value(b@.take(i as int))),
        decreases a.len() - i,
    {
        proof {
            lemma_value_bound(a@.take(i as int));
            lemma_value_bound(b@.take(i as int));
            assert(a@.take(i + 1) =~= a@.take(i as int).push(a@[i as int]));
            assert(b@.take(i + 1) =~= b@.take(i as int).push(b@[i as int]));
            lemma_value_push(a@.take(i as int), a@[i as int]);
            lemma_value_push(b@.take(i as int), b@[i as int]);
            lemma_compare_step(
                value(a@.take(i as int)),
                value(b@.take(i as int)),
                a@[i as int] as nat,
                b@[i as int] as nat,
                weight(i as nat),
            );
        }
        if a[i] > b[i] {
            r = true;
        } else if a[i] < b[i] {
            r = false;
        }
        i += 1;
    }
    assert(a@.take(a.len() as int) =~= a@);
    assert(b@.take(b.len() as int) =~= b@);
    r
}

/// The number one, as a single limb.
fn one() -> (r: Vec<u64>)
    ensures
        value(r@) == 1,
        r@.len() == 1,
{
    let mut r: Vec<u64> = Vec::new();
    r.push(1);
    proof {
        lemma_value_push(Seq::<u64>::empty(), 1);
    }
    r
}

/// Whether score `a` is at least score `b`, decided exactly.
pub fn at_least(a: Score, b: Score) -> (r: bool)
    ensures
        r == at_least_spec(a, b),
{
    let left = scale_by_power(scale_by_power(one(), a.num, b.root), b.den, a.root);
    let right = scale_by_power(scale_by_power(one(), b.num, a.root), a.den, b.root);
    proof {
        assert(1 * power(a.num as nat, b.root as nat) == power(a.num as nat, b.root as nat));
        assert(1 * power(b.num as nat, a.root as nat) == power(b.num as nat, a.root as nat));
    }
    at_least_limbs(&left, &right)
}

} // verus!
