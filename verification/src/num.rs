//! Integer kernel for the search arithmetic: powers, integer square root,
//! integer n-th root, and sums of weight vectors.
//!
//! All quantities of the engine are fixed-point values scaled by `UNIT`
//! (see the crate root), so every formula of the search is exact integer
//! arithmetic with stated rounding.

use vstd::prelude::*;

verus! {

/// `b` raised to the power `e` over the naturals.
pub open spec fn pow_n(b: nat, e: nat) -> nat
    decreases e,
{
    if e == 0 {
        1
    } else {
        b * pow_n(b, (e - 1) as nat)
    }
}

pub proof fn lemma_pow_pos(b: nat, e: nat)
    requires
        b >= 1,
    ensures
        pow_n(b, e) >= 1,
    decreases e,
{
    if e > 0 {
        lemma_pow_pos(b, (e - 1) as nat);
        assert(b * pow_n(b, (e - 1) as nat) >= 1 * 1) by (nonlinear_arith)
            requires
                b >= 1,
                pow_n(b, (e - 1) as nat) >= 1,
        ;
    }
}

pub proof fn lemma_pow_zero_base(e: nat)
    requires
        e >= 1,
    ensures
        pow_n(0, e) == 0,
{
}

pub proof fn lemma_pow_mono_base(a: nat, b: nat, e: nat)
    requires
        a <= b,
    ensures
        pow_n(a, e) <= pow_n(b, e),
    decreases e,
{
    if e > 0 {
        lemma_pow_mono_base(a, b, (e - 1) as nat);
        assert(a * pow_n(a, (e - 1) as nat) <= b * pow_n(b, (e - 1) as nat)) by (nonlinear_arith)
            requires
                a <= b,
                pow_n(a, (e - 1) as nat) <= pow_n(b, (e - 1) as nat),
        ;
    }
}

pub proof fn lemma_pow_strict_mono_base(a: nat, b: nat, e: nat)
    requires
        a < b,
        e >= 1,
    ensures
        pow_n(a, e) < pow_n(b, e),
    decreases e,
{
    if e == 1 {
        assert(pow_n(a, 0) == 1);
        assert(pow_n(b, 0) == 1);
        assert(pow_n(a, 1) == a * pow_n(a, 0));
        assert(pow_n(b, 1) == b * pow_n(b, 0));
    } else {
        lemma_pow_strict_mono_base(a, b, (e - 1) as nat);
        lemma_pow_pos(b, (e - 1) as nat);
        assert(a * pow_n(a, (e - 1) as nat) < b * pow_n(b, (e - 1) as nat)) by (nonlinear_arith)
            requires
                a < b,
                pow_n(a, (e - 1) as nat) < pow_n(b, (e - 1) as nat),
                pow_n(b, (e - 1) as nat) >= 1,
        ;
    }
}

pub proof fn lemma_pow_mono_exp(b: nat, i: nat, j: nat)
    requires
        b >= 1,
        i <= j,
    ensures
        pow_n(b, i) <= pow_n(b, j),
    decreases j,
{
    if i < j {
        lemma_pow_mono_exp(b, i, (j - 1) as nat);
        assert(1 * pow_n(b, (j - 1) as nat) <= b * pow_n(b, (j - 1) as nat)) by (nonlinear_arith)
            requires
                b >= 1,
                pow_n(b, (j - 1) as nat) >= 0,
        ;
    }
}

/// A square in the exponent is a square of the base.
pub proof fn lemma_pow_square(b: nat, e: nat)
    ensures
        pow_n(b * b, e) == pow_n(b, 2 * e),
    decreases e,
{
    if e > 0 {
        lemma_pow_square(b, (e - 1) as nat);
        assert(pow_n(b, 2 * e) == b * pow_n(b, (2 * e - 1) as nat));
        assert(pow_n(b, (2 * e - 1) as nat) == b * pow_n(b, (2 * e - 2) as nat));
        assert(2 * ((e - 1) as nat) == (2 * e - 2) as nat);
        assert((b * b) * pow_n(b * b, (e - 1) as nat) == b * (b * pow_n(b, (2 * e - 2) as nat)))
            by (nonlinear_arith)
            requires
                pow_n(b * b, (e - 1) as nat) == pow_n(b, (2 * e - 2) as nat),
        ;
    }
}

/// Decides whether `r^e <= cap`, without ever overflowing.
pub fn pow_le(r: u64, e: u32, cap: u128) -> (b: bool)
    requires
        1 <= e,
        r <= 0x40000000000,
        cap <= 0x1000000000000000000000,
    ensures
        b == (pow_n(r as nat, e as nat) <= cap as nat),
{
    if r == 0 {
        proof { lemma_pow_zero_base(e as nat); }
        return true;
    }
    let mut acc: u128 = 1;
    let mut i: u32 = 0;
    while i < e
        invariant
            i <= e,
            1 <= e,
            1 <= r <= 0x40000000000,
            cap <= 0x1000000000000000000000,
            acc == pow_n(r as nat, i as nat),
            i >= 1 ==> acc <= cap,
            i == 0 ==> acc == 1,
            acc <= 0x1000000000000000000000,
        decreases e - i,
    {
        assert(acc * (r as u128) <= 0x1000000000000000000000 * 0x40000000000) by (nonlinear_arith)
            requires
                0 <= acc <= 0x1000000000000000000000,
                0 <= (r as u128) <= 0x40000000000,
        ;
        let next: u128 = acc * (r as u128);
        assert(pow_n(r as nat, (i + 1) as nat) == (r as nat) * pow_n(r as nat, i as nat));
        assert(next == pow_n(r as nat, (i + 1) as nat));
        if next > cap {
            proof {
                lemma_pow_mono_exp(r as nat, (i + 1) as nat, e as nat);
            }
            return false;
        }
        acc = next;
        i = i + 1;
    }
    true
}

/// Floor of the `e`-th root of `x`, searched below the bound `ub`.
pub fn nth_root(x: u128, e: u32, ub: u64) -> (r: u64)
    requires
        1 <= e,
        1 <= ub <= 0x40000000000,
        x <= 0x1000000000000000000000,
        pow_n(ub as nat, e as nat) > x as nat,
    ensures
        pow_n(r as nat, e as nat) <= x as nat,
        pow_n((r + 1) as nat, e as nat) > x as nat,
        r < ub,
{
    let mut lo: u64 = 0;
    let mut hi: u64 = ub;
    proof { lemma_pow_zero_base(e as nat); }
    while lo + 1 < hi
        invariant
            lo < hi <= ub,
            1 <= e,
            ub <= 0x40000000000,
            x <= 0x1000000000000000000000,
            pow_n(lo as nat, e as nat) <= x as nat,
            pow_n(hi as nat, e as nat) > x as nat,
        decreases hi - lo,
    {
        let mid: u64 = lo + (hi - lo) / 2;
        if pow_le(mid, e, x) {
            lo = mid;
        } else {
            hi = mid;
        }
    }
    lo
}

/// `s` is the floor of the square root of `x`.
pub open spec fn is_sqrt(s: int, x: int) -> bool {
    0 <= s && s * s <= x < (s + 1) * (s + 1)
}

/// The floor square root is unique.
pub proof fn lemma_sqrt_unique(x: int, s1: int, s2: int)
    requires
        is_sqrt(s1, x),
        is_sqrt(s2, x),
    ensures
        s1 == s2,
{
    if s1 < s2 {
        assert((s1 + 1) * (s1 + 1) <= s2 * s2) by (nonlinear_arith)
            requires
                0 <= s1,
                s1 + 1 <= s2,
        ;
    }
    if s2 < s1 {
        assert((s2 + 1) * (s2 + 1) <= s1 * s1) by (nonlinear_arith)
            requires
                0 <= s2,
                s2 + 1 <= s1,
        ;
    }
}

/// Floor of the square root of `x`.
pub fn isqrt(x: u64) -> (r: u64)
    ensures
        is_sqrt(r as int, x as int),
{
    let mut lo: u64 = 0;
    let mut hi: u64 = 0x100000000;
    while lo + 1 < hi
        invariant
            lo < hi <= 0x100000000,
            (lo as int) * (lo as int) <= x as int,
            (hi as int) * (hi as int) > x as int,
        decreases hi - lo,
    {
        let mid: u64 = lo + (hi - lo) / 2;
        assert((mid as u128) * (mid as u128) <= 0x100000000 * 0x100000000) by (nonlinear_arith)
            requires
                0 <= (mid as u128) <= 0x100000000,
        ;
        let m2: u128 = (mid as u128) * (mid as u128);
        if m2 <= x as u128 {
            lo = mid;
        } else {
            hi = mid;
        }
    }
    lo
}

pub proof fn lemma_pow_one(e: nat)
    ensures
        pow_n(1, e) == 1,
    decreases e,
{
    if e > 0 {
        lemma_pow_one((e - 1) as nat);
    }
}

/// `w` is the floor of `v` raised to the rational exponent `t_den / t_num`.
pub open spec fn is_temp_weight(w: nat, v: nat, t_num: nat, t_den: nat) -> bool {
    pow_n(w, t_num) <= pow_n(v, t_den) < pow_n(w + 1, t_num)
}

/// The temperature-scaled weight of a visit count: the floor of
/// `v^(1/temperature)` where the temperature is the rational
/// `t_num / t_den`, so the exponent is `t_den / t_num`.
#[verifier::rlimit(60)]
#[verifier::spinoff_prover]
pub fn temp_weight(v: u64, t_num: u32, t_den: u32) -> (w: u64)
    requires
        v <= 0x1fffff,
        1 <= t_num,
        1 <= t_den <= 4,
        t_den <= 2 * t_num,
    ensures
        is_temp_weight(w as nat, v as nat, t_num as nat, t_den as nat),
        w <= v * v,
        v >= 1 ==> w >= 1,
        v == 0 ==> w == 0,
{
    proof {
        assert(pow_n(0x200000, 0) == 1);
        assert(pow_n(0x200000, 1) == 0x200000 * pow_n(0x200000, 0));
        assert(pow_n(0x200000, 2) == 0x200000 * pow_n(0x200000, 1));
        assert(pow_n(0x200000, 3) == 0x200000 * pow_n(0x200000, 2));
        assert(pow_n(0x200000, 4) == 0x200000 * pow_n(0x200000, 3));
        assert(pow_n(0x200000, 4) == 0x1000000000000000000000);
    }
    let mut x: u128 = 1;
    let mut i: u32 = 0;
    while i < t_den
        invariant
            i <= t_den <= 4,
            v <= 0x1fffff,
            x == pow_n(v as nat, i as nat),
            x <= 0x1000000000000000000000,
            pow_n(0x200000, 4) == 0x1000000000000000000000,
        decreases t_den - i,
    {
        assert(x * (v as u128) <= 0x1000000000000000000000 * 0x200000) by (nonlinear_arith)
            requires
                0 <= x <= 0x1000000000000000000000,
                0 <= (v as u128) <= 0x200000,
        ;
        let next: u128 = x * (v as u128);
        proof {
            assert(pow_n(v as nat, (i + 1) as nat) == (v as nat) * pow_n(v as nat, i as nat));
            lemma_pow_mono_base(v as nat, 0x200000, (i + 1) as nat);
            lemma_pow_mono_exp(0x200000, (i + 1) as nat, 4);
        }
        x = next;
        i = i + 1;
    }
    assert((v as int) * (v as int) <= 0x1fffff * 0x1fffff) by (nonlinear_arith)
        requires
            0 <= (v as int) <= 0x1fffff,
    ;
    let ub: u64 = v * v + 1;
    proof {
        if v >= 1 {
            lemma_pow_mono_exp(v as nat, t_den as nat, 2 * t_num as nat);
            lemma_pow_square(v as nat, t_num as nat);
            lemma_pow_strict_mono_base((v * v) as nat, (v * v + 1) as nat, t_num as nat);
        } else {
            lemma_pow_zero_base(t_den as nat);
            lemma_pow_one(t_num as nat);
        }
    }
    let w: u64 = nth_root(x, t_num, ub);
    proof {
        if v >= 1 {
            lemma_pow_pos(v as nat, t_den as nat);
            lemma_pow_one(t_num as nat);
            if w == 0 {
                assert(pow_n(1, t_num as nat) > x as nat);
                assert(false);
            }
        } else {
            lemma_pow_zero_base(t_den as nat);
            if w >= 1 {
                lemma_pow_pos(w as nat, t_num as nat);
                assert(false);
            }
        }
    }
    w
}

/// The temperature weight is monotone in the visit count.
pub proof fn lemma_temp_weight_mono(w1: nat, v1: nat, w2: nat, v2: nat, t_num: nat, t_den: nat)
    requires
        is_temp_weight(w1, v1, t_num, t_den),
        is_temp_weight(w2, v2, t_num, t_den),
        v1 <= v2,
        1 <= t_num,
    ensures
        w1 <= w2,
{
    lemma_pow_mono_base(v1, v2, t_den);
    if w1 > w2 {
        lemma_pow_mono_base(w2 + 1, w1, t_num);
        assert(false);
    }
}

/// At temperature one the weight is the visit count itself.
pub proof fn lemma_temp_weight_id(w: nat, v: nat, t: nat)
    requires
        is_temp_weight(w, v, t, t),
        1 <= t,
    ensures
        w == v,
{
    if w > v {
        lemma_pow_strict_mono_base(v, w, t);
        assert(false);
    }
    if v > w {
        lemma_pow_mono_base(w + 1, v, t);
        assert(false);
    }
}

/// The sum of a sequence of weights.
pub open spec fn sum64(s: Seq<u64>) -> int
    decreases s.len(),
{
    if s.len() == 0 {
        0
    } else {
        s[0] + sum64(s.drop_first())
    }
}

pub proof fn lemma_sum64_push(s: Seq<u64>, x: u64)
    ensures
        sum64(s.push(x)) == sum64(s) + x,
    decreases s.len(),
{
    if s.len() == 0 {
        assert(s.push(x).drop_first() =~= Seq::<u64>::empty());
        assert(s.push(x)[0] == x);
        assert(sum64(s.push(x).drop_first()) == 0);
    } else {
        assert(s.push(x).drop_first() =~= s.drop_first().push(x));
        lemma_sum64_push(s.drop_first(), x);
        assert(s.push(x)[0] == s[0]);
    }
}

pub proof fn lemma_sum64_update(s: Seq<u64>, i: int, x: u64)
    requires
        0 <= i < s.len(),
    ensures
        sum64(s.update(i, x)) == sum64(s) - s[i] + x,
    decreases s.len(),
{
    if i == 0 {
        assert(s.update(0, x).drop_first() =~= s.drop_first());
    } else {
        assert(s.update(i, x).drop_first() =~= s.drop_first().update(i - 1, x));
        lemma_sum64_update(s.drop_first(), i - 1, x);
    }
}

pub proof fn lemma_sum64_lower(s: Seq<u64>, i: int)
    requires
        0 <= i < s.len(),
    ensures
        sum64(s) >= s[i],
    decreases s.len(),
{
    if i == 0 {
        lemma_sum64_nonneg(s.drop_first());
    } else {
        lemma_sum64_lower(s.drop_first(), i - 1);
    }
}

pub proof fn lemma_sum64_nonneg(s: Seq<u64>)
    ensures
        sum64(s) >= 0,
    decreases s.len(),
{
    if s.len() > 0 {
        lemma_sum64_nonneg(s.drop_first());
    }
}

} // verus!
