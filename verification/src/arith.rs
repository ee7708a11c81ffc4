//! Exact integer arithmetic used by the mesh engine: floor and truncating
//! division, and a widened product comparison for the crease predicate.

use vstd::prelude::*;

verus! {

/// Fixed-point units per model unit.
pub const SCALE: i64 = 160000;

/// Two coordinates within (strictly less than) this many units are the same
/// mesh coordinate: `EPS` is one ten-thousandth of a model unit.
pub const EPS: i64 = 16;

/// Largest coordinate magnitude, in units, that the engine accepts. Chosen so
/// that every intermediate product of the crease predicate fits the machine
/// integers it is computed in.
pub const MAXC: i64 = 536870912;

/// Powers of five: the worst-case per-pass growth factor of a smoothed
/// coordinate.
pub open spec fn pow5(n: nat) -> nat
    decreases n,
{
    if n == 0 {
        1nat
    } else {
        5 * pow5((n - 1) as nat)
    }
}

pub proof fn lemma_pow5_mono(i: nat, j: nat)
    requires
        i <= j,
    ensures
        1 <= pow5(i) <= pow5(j),
    decreases j,
{
    if j > 0 {
        if i == j {
            lemma_pow5_mono(0, (j - 1) as nat);
        } else {
            lemma_pow5_mono(i, (j - 1) as nat);
        }
    }
}

/// Truncating (toward zero) quotient, as the `/` of the machine.
pub open spec fn tdiv(a: int, d: int) -> int {
    if a >= 0 {
        a / d
    } else {
        -((-a) / d)
    }
}

/// Floor quotient of `a` by a positive divisor, exactly the mathematical
/// (Euclidean) division of the specification level.
pub fn div_floor(a: i128, d: i128) -> (r: i128)
    requires
        1 <= d,
        -0x4000_0000_0000_0000_0000_0000_0000_0000 <= a
            <= 0x4000_0000_0000_0000_0000_0000_0000_0000,
        d <= 0x4000_0000_0000_0000_0000_0000_0000_0000,
    ensures
        r == a as int / d as int,
{
    proof {
        lemma_div_in_range(a as int, d as int);
    }
    match a.checked_div_euclid(d) {
        Some(q) => q,
        None => {
            proof {
                assert(false);
            }
            0
        },
    }
}

/// The floor quotient of a bounded dividend by a positive divisor stays in
/// range: it lies between `a - d` (exclusive) and `a` or zero.
proof fn lemma_div_in_range(a: int, d: int)
    requires
        1 <= d,
    ensures
        a >= 0 ==> 0 <= a / d <= a,
        a < 0 ==> a - d < a / d < 0 + 1,
{
    let q = a / d;
    let r = a % d;
    vstd::arithmetic::div_mod::lemma_fundamental_div_mod(a, d);
    assert(a == d * q + r);
    assert(0 <= r < d);
    if a >= 0 {
        if q < 0 {
            assert(d * q <= q) by (nonlinear_arith)
                requires
                    d >= 1,
                    q < 0,
            ;
            assert(false);
        }
        assert(q <= d * q) by (nonlinear_arith)
            requires
                d >= 1,
                q >= 0,
        ;
    } else {
        if q >= 0 {
            assert(q <= d * q) by (nonlinear_arith)
                requires
                    d >= 1,
                    q >= 0,
            ;
            assert(false);
        }
        assert(d * q <= q) by (nonlinear_arith)
            requires
                d >= 1,
                q < 0,
        ;
    }
}

/// Bound on the components of an unnormalized face normal: `8 * MAXC * MAXC`.
pub const NORMAL_BOUND: i128 = 2305843009213693952;

pub open spec fn pow2_64() -> int {
    0x1_0000_0000_0000_0000
}

pub open spec fn pow2_128() -> int {
    0x1_0000_0000_0000_0000_0000_0000_0000_0000int
}

/// The two halves of the full 256-bit product of two machine words.
pub fn wide_mul(a: u128, b: u128) -> (r: (u128, u128))
    ensures
        r.0 * pow2_128() + r.1 == a * b,
{
    let k: u128 = 0x1_0000_0000_0000_0000;
    let a1 = a / k;
    let a0 = a % k;
    let b1 = b / k;
    let b0 = b % k;
    proof {
        vstd::arithmetic::div_mod::lemma_fundamental_div_mod(a as int, k as int);
        vstd::arithmetic::div_mod::lemma_fundamental_div_mod(b as int, k as int);
        assert(a1 < k && b1 < k) by (nonlinear_arith)
            requires
                a1 == (a as int) / (k as int),
                b1 == (b as int) / (k as int),
                k == pow2_64(),
                a <= u128::MAX,
                b <= u128::MAX,
                u128::MAX == pow2_128() - 1,
        ;
        lemma_word_product_bound(a0 as int, b0 as int);
        lemma_word_product_bound(a0 as int, b1 as int);
        lemma_word_product_bound(a1 as int, b0 as int);
        lemma_word_product_bound(a1 as int, b1 as int);
    }
    let p00 = a0 * b0;
    let p01 = a0 * b1;
    let p10 = a1 * b0;
    let p11 = a1 * b1;
    proof {
        vstd::arithmetic::div_mod::lemma_fundamental_div_mod(p00 as int, k as int);
        vstd::arithmetic::div_mod::lemma_fundamental_div_mod(p01 as int, k as int);
        vstd::arithmetic::div_mod::lemma_fundamental_div_mod(p10 as int, k as int);
        assert((p00 as int) / (k as int) < k) by (nonlinear_arith)
            requires
                p00 <= (pow2_64() - 1) * (pow2_64() - 1),
                k == pow2_64(),
                (p00 as int) / (k as int) == (p00 as int) / pow2_64(),
                p00 == k as int * ((p00 as int) / (k as int)) + (p00 as int) % (k as int),
                0 <= (p00 as int) % (k as int) < k,
        ;
    }
    let t = p00 / k + p01 % k + p10 % k;
    proof {
        vstd::arithmetic::div_mod::lemma_fundamental_div_mod(t as int, k as int);
        assert((p01 as int) / (k as int) < k && (p10 as int) / (k as int) < k && (t as int) / (k as int)
            < k) by (nonlinear_arith)
            requires
                p01 <= (pow2_64() - 1) * (pow2_64() - 1),
                p10 <= (pow2_64() - 1) * (pow2_64() - 1),
                t < 3 * pow2_64(),
                k == pow2_64(),
                p01 == k as int * ((p01 as int) / (k as int)) + (p01 as int) % (k as int),
                p10 == k as int * ((p10 as int) / (k as int)) + (p10 as int) % (k as int),
                t == k as int * ((t as int) / (k as int)) + (t as int) % (k as int),
                0 <= (p01 as int) % (k as int) < k,
                0 <= (p10 as int) % (k as int) < k,
                0 <= (t as int) % (k as int) < k,
        ;
        assert((t % k) * k + p00 % k < pow2_128()) by (nonlinear_arith)
            requires
                k == pow2_64(),
                0 <= (t as int) % (k as int) < k,
                0 <= (p00 as int) % (k as int) < k,
        ;
        assert((p01 as int) / (k as int) <= k - 2 && (p10 as int) / (k as int) <= k
            - 2 && (t as int) / (k as int) <= 2) by (nonlinear_arith)
            requires
                p01 <= (pow2_64() - 1) * (pow2_64() - 1),
                p10 <= (pow2_64() - 1) * (pow2_64() - 1),
                t < 3 * pow2_64(),
                k == pow2_64(),
                p01 == k as int * ((p01 as int) / (k as int)) + (p01 as int) % (k as int),
                p10 == k as int * ((p10 as int) / (k as int)) + (p10 as int) % (k as int),
                t == k as int * ((t as int) / (k as int)) + (t as int) % (k as int),
                0 <= (p01 as int) % (k as int) < k,
                0 <= (p10 as int) % (k as int) < k,
                0 <= (t as int) % (k as int) < k,
        ;
        assert((pow2_64() - 1) * (pow2_64() - 1) + 2 * pow2_64() - 2 < pow2_128())
            by (nonlinear_arith)
            requires
                pow2_64() == 0x1_0000_0000_0000_0000,
                pow2_128() == 0x1_0000_0000_0000_0000_0000_0000_0000_0000int,
        ;
    }
    let lo = (t % k) * k + p00 % k;
    let hi = p11 + p01 / k + p10 / k + t / k;
    proof {
        lemma_wide_mul_identity(
            a as int,
            b as int,
            a1 as int,
            a0 as int,
            b1 as int,
            b0 as int,
            p00 as int,
            p01 as int,
            p10 as int,
            p11 as int,
            t as int,
            lo as int,
            hi as int,
        );
    }
    (hi, lo)
}

proof fn lemma_word_product_bound(x: int, y: int)
    requires
        0 <= x < pow2_64(),
        0 <= y < pow2_64(),
    ensures
        0 <= x * y <= (pow2_64() - 1) * (pow2_64() - 1),
        x * y < pow2_128(),
{
    vstd::arithmetic::mul::lemma_mul_upper_bound(x, pow2_64() - 1, y, pow2_64() - 1);
    vstd::arithmetic::mul::lemma_mul_nonnegative(x, y);
    assert((pow2_64() - 1) * (pow2_64() - 1) < pow2_128()) by (nonlinear_arith)
        requires
            pow2_64() == 0x1_0000_0000_0000_0000,
            pow2_128() == 0x1_0000_0000_0000_0000_0000_0000_0000_0000int,
    ;
}

#[verifier::spinoff_prover]
proof fn lemma_wide_mul_identity(
    a: int,
    b: int,
    a1: int,
    a0: int,
    b1: int,
    b0: int,
    p00: int,
    p01: int,
    p10: int,
    p11: int,
    t: int,
    lo: int,
    hi: int,
)
    requires
        a == pow2_64() * a1 + a0,
        b == pow2_64() * b1 + b0,
        0 <= a0 < pow2_64(),
        0 <= b0 < pow2_64(),
        p00 == a0 * b0,
        p01 == a0 * b1,
        p10 == a1 * b0,
        p11 == a1 * b1,
        t == p00 / pow2_64() + p01 % pow2_64() + p10 % pow2_64(),
        lo == (t % pow2_64()) * pow2_64() + p00 % pow2_64(),
        hi == p11 + p01 / pow2_64() + p10 / pow2_64() + t / pow2_64(),
    ensures
        hi * pow2_128() + lo == a * b,
{
    let k = pow2_64();
    let kk = pow2_128();
    assert(k * k == kk) by (nonlinear_arith)
        requires
            k == 0x1_0000_0000_0000_0000,
            kk == 0x1_0000_0000_0000_0000_0000_0000_0000_0000int,
    ;
    vstd::arithmetic::div_mod::lemma_fundamental_div_mod(p00, k);
    vstd::arithmetic::div_mod::lemma_fundamental_div_mod(p01, k);
    vstd::arithmetic::div_mod::lemma_fundamental_div_mod(p10, k);
    vstd::arithmetic::div_mod::lemma_fundamental_div_mod(t, k);
    assert((k * a1 + a0) * (k * b1 + b0) == (a1 * b1) * (k * k) + (a0 * b1 + a1 * b0) * k + a0
        * b0) by (nonlinear_arith)
        requires
            k == 0x1_0000_0000_0000_0000,
    ;
    assert((a0 * b1 + a1 * b0) * k == p01 * k + p10 * k) by (nonlinear_arith)
        requires
            p01 == a0 * b1,
            p10 == a1 * b0,
    ;
    assert(a * b == p11 * kk + p01 * k + p10 * k + p00);
    let q00 = p00 / k;
    let r00 = p00 % k;
    let q01 = p01 / k;
    let r01 = p01 % k;
    let q10 = p10 / k;
    let r10 = p10 % k;
    let qt = t / k;
    let rt = t % k;
    assert(p01 * k + p10 * k == q01 * kk + q10 * kk + (r01 + r10) * k) by (nonlinear_arith)
        requires
            p01 == k * q01 + r01,
            p10 == k * q10 + r10,
            kk == k * k,
    ;
    assert((r01 + r10) * k + k * q00 == (q00 + r01 + r10) * k) by (nonlinear_arith)
        requires
            k == 0x1_0000_0000_0000_0000,
    ;
    assert((q00 + r01 + r10) * k == qt * kk + rt * k) by (nonlinear_arith)
        requires
            t == q00 + r01 + r10,
            t == k * qt + rt,
            kk == k * k,
    ;
    assert((p11 + q01 + q10 + qt) * kk == p11 * kk + q01 * kk + q10 * kk + qt
        * kk) by (nonlinear_arith)
        requires
            kk == 0x1_0000_0000_0000_0000_0000_0000_0000_0000int,
    ;
    assert(a * b == p11 * kk + q01 * kk + q10 * kk + (r01 + r10) * k + k * q00 + r00);
    assert(hi * kk + lo == a * b);
}

/// True exactly when `a * b < c * d`, over the full products.
pub fn wide_lt(a: u128, b: u128, c: u128, d: u128) -> (r: bool)
    ensures
        r <==> a * b < c * d,
{
    let x = wide_mul(a, b);
    let y = wide_mul(c, d);
    proof {
        if x.0 < y.0 {
            assert((x.0 as int + 1) * pow2_128() <= y.0 * pow2_128()) by (nonlinear_arith)
                requires
                    x.0 as int + 1 <= y.0 as int,
            ;
        }
        if y.0 < x.0 {
            assert((y.0 as int + 1) * pow2_128() <= x.0 * pow2_128()) by (nonlinear_arith)
                requires
                    y.0 as int + 1 <= x.0 as int,
            ;
        }
    }
    x.0 < y.0 || (x.0 == y.0 && x.1 < y.1)
}

/// Truncating quotient of a bounded dividend by a positive divisor: exactly
/// the `tdiv` of the specification level.
pub fn div_trunc(a: i64, d: i64) -> (r: i64)
    requires
        1 <= d,
        i64::MIN < a,
    ensures
        r == tdiv(a as int, d as int),
{
    proof {
        lemma_div_in_range(a as int, d as int);
        lemma_div_in_range(-(a as int), d as int);
    }
    if a >= 0 {
        match a.checked_div_euclid(d) {
            Some(q) => q,
            None => {
                proof {
                    assert(false);
                }
                0
            },
        }
    } else {
        let n = -a;
        let q = match n.checked_div_euclid(d) {
            Some(q) => q,
            None => {
                proof {
                    assert(false);
                }
                0
            },
        };
        -q
    }
}

} // verus!
