//! Exact integer arithmetic behind the ranking formulas.
//!
//! Scores are kept in scaled integers: the inverse document frequency is a
//! base-10 logarithm in thousandths, computed digit by digit in fixed-point
//! arithmetic, and the character-histogram similarity is a cosine in
//! millionths over an integer square root. Every function here equals its
//! spec-level definition exactly.

use vstd::arithmetic::power2::{lemma_pow2_strictly_increases, pow2};
use vstd::prelude::*;

verus! {

/// Fixed-point scale: 2^46.
pub const FIX_ONE: u128 = 0x4000_0000_0000;

/// 10^k.
pub open spec fn pow10(k: nat) -> int
    decreases k,
{
    if k == 0 {
        1
    } else {
        10 * pow10((k - 1) as nat)
    }
}

/// Powers of ten outgrow powers of two.
pub proof fn lemma_pow10_ge_pow2(k: nat)
    ensures
        pow10(k) >= pow2(k),
        pow10(k) >= 1,
    decreases k,
{
    if k == 0 {
        vstd::arithmetic::power2::lemma2_to64();
    } else {
        lemma_pow10_ge_pow2((k - 1) as nat);
        assert(pow2(k) == 2 * pow2((k - 1) as nat)) by {
            vstd::arithmetic::power2::lemma_pow2_unfold(k as nat);
        }
    }
}

/// Number of leading decimal digits above the fixed-point window.
pub open spec fn digit_of(z: int) -> nat
    decreases z,
{
    if z < 10 * (FIX_ONE as int) {
        0
    } else {
        1 + digit_of(z / 10)
    }
}

/// The value scaled back into the fixed-point window.
pub open spec fn shrink(z: int) -> int
    decreases z,
{
    if z < 10 * (FIX_ONE as int) {
        z
    } else {
        shrink(z / 10)
    }
}

/// A value below `10^(n+1)` ones has at most `n` leading digits.
pub proof fn lemma_digit_bound(z: int, n: nat)
    requires
        z < pow10(n + 1) * (FIX_ONE as int),
    ensures
        digit_of(z) <= n,
    decreases n,
{
    if z < 10 * (FIX_ONE as int) {
    } else {
        assert(n > 0) by {
            if n == 0 {
                assert(pow10(1) == 10);
            }
        }
        assert(z / 10 < pow10(n) * (FIX_ONE as int)) by (nonlinear_arith)
            requires
                z < pow10(n + 1) * (FIX_ONE as int),
                pow10(n + 1) == 10 * pow10(n),
                z >= 0,
        ;
        lemma_digit_bound(z / 10, (n - 1) as nat);
    }
}

/// The tenth power in fixed point, by repeated squaring with truncation.
pub open spec fn tenth_pow_fix(y: int) -> int {
    let f = FIX_ONE as int;
    let y2 = (y * y) / f;
    let y4 = (y2 * y2) / f;
    let y8 = (y4 * y4) / f;
    (y8 * y2) / f
}

/// The next `rounds` decimal digits of log10 of a fixed-point value in
/// `[1, 10)`, as one integer.
pub open spec fn frac_digits(y: int, rounds: nat) -> int
    decreases rounds,
{
    if rounds == 0 {
        0
    } else {
        let z = tenth_pow_fix(y);
        digit_of(z) * pow10((rounds - 1) as nat) + frac_digits(shrink(z), (rounds - 1) as nat)
    }
}

/// Integer part of log10(b/a), for `1 <= a <= b`.
pub open spec fn log_int_part(a: int, b: int) -> nat
    decreases b - a,
{
    if a < 1 || b < 10 * a {
        0
    } else {
        1 + log_int_part(10 * a, b)
    }
}

/// Thousandths of log10(b/a) for `1 <= a <= b`: the integer part and three
/// fixed-point decimal digits.
pub open spec fn mlog10(a: int, b: int) -> int {
    if a < 1 || b < a {
        0
    } else {
        let k = log_int_part(a, b);
        let y = (b * (FIX_ONE as int)) / (a * pow10(k));
        1000 * k + frac_digits(y, 3)
    }
}

/// Bound on a fixed-point product and its rescaling.
proof fn lemma_fix_mul_bound(x: int, y: int, bx: int, by_: int, f: int)
    requires
        f >= 1,
        bx >= 1,
        by_ >= 1,
        0 <= x,
        x < bx * f,
        0 <= y,
        y < by_ * f,
    ensures
        x * y < bx * by_ * f * f,
        0 <= x * y,
        (x * y) / f < bx * by_ * f,
        0 <= (x * y) / f,
{
    assert(x * y < bx * by_ * f * f && 0 <= x * y) by (nonlinear_arith)
        requires
            f >= 1,
            bx >= 1,
            by_ >= 1,
            0 <= x,
            x < bx * f,
            0 <= y,
            y < by_ * f,
    ;
    assert((x * y) / f < bx * by_ * f && 0 <= (x * y) / f) by (nonlinear_arith)
        requires
            f >= 1,
            0 <= x * y,
            x * y < bx * by_ * f * f,
    ;
}

/// One digit-extraction round: the tenth power of `y` and its leading digit.
fn frac_round(y: u128) -> (r: (u64, u128))
    requires
        y < 10 * FIX_ONE,
    ensures
        r.0 as int == digit_of(tenth_pow_fix(y as int)),
        r.1 as int == shrink(tenth_pow_fix(y as int)),
        r.1 < 10 * FIX_ONE,
        r.0 <= 9,
{
    let ghost fi = FIX_ONE as int;
    proof {
        lemma_fix_mul_bound(y as int, y as int, 10, 10, fi);
    }
    let y2 = (y * y) / FIX_ONE;
    proof {
        lemma_fix_mul_bound(y2 as int, y2 as int, 100, 100, fi);
    }
    let y4 = (y2 * y2) / FIX_ONE;
    proof {
        lemma_fix_mul_bound(y4 as int, y4 as int, 10000, 10000, fi);
    }
    let y8 = (y4 * y4) / FIX_ONE;
    proof {
        lemma_fix_mul_bound(y8 as int, y2 as int, 100000000, 100, fi);
    }
    let z = (y8 * y2) / FIX_ONE;
    proof {
        assert(z as int == tenth_pow_fix(y as int));
        reveal_with_fuel(pow10, 11);
        assert(pow10(10) == 10000000000);
        lemma_digit_bound(z as int, 9);
    }
    let mut zz = z;
    let mut d: u64 = 0;
    while zz >= 10 * FIX_ONE
        invariant
            digit_of(z as int) == d + digit_of(zz as int),
            shrink(z as int) == shrink(zz as int),
            d <= digit_of(z as int),
            digit_of(z as int) <= 9,
        decreases zz,
    {
        zz = zz / 10;
        d = d + 1;
    }
    (d, zz)
}

/// Thousandths of log10(b/a), exactly as the spec defines them.
pub fn mlog10_milli(a: u64, b: u64) -> (p: u64)
    requires
        1 <= a,
        a <= b,
    ensures
        p as int == mlog10(a as int, b as int),
        p < 100000,
{
    let big_b = b as u128;
    let mut ap = a as u128;
    let mut k: u32 = 0;
    proof {
        lemma_pow10_ge_pow2(0);
    }
    while big_b >= 10 * ap
        invariant
            big_b == b as int,
            1 <= a,
            a <= b,
            ap == (a as int) * pow10(k as nat),
            1 <= ap,
            ap <= big_b,
            k < 64,
        decreases big_b - ap,
    {
        proof {
            assert(10 * ap == (a as int) * pow10((k + 1) as nat)) by (nonlinear_arith)
                requires
                    ap == (a as int) * pow10(k as nat),
                    pow10((k + 1) as nat) == 10 * pow10(k as nat),
            ;
            // ten times more would overshoot 2^64 after at most 63 steps
            lemma_pow10_ge_pow2((k + 1) as nat);
            if k + 1 >= 64 {
                vstd::arithmetic::power2::lemma2_to64_rest();
                assert(pow2(64) == 0x10000000000000000);
                if k + 1 > 64 {
                    lemma_pow2_strictly_increases(64, (k + 1) as nat);
                }
                assert(pow2((k + 1) as nat) >= 0x10000000000000000);
                assert((a as int) * pow10((k + 1) as nat) >= pow10((k + 1) as nat))
                    by (nonlinear_arith)
                    requires
                        a >= 1,
                        pow10((k + 1) as nat) >= 0,
                ;
                assert(false);
            }
        }
        ap = ap * 10;
        k = k + 1;
    }
    proof {
        // the loop computed exactly the integer part of the logarithm
        lemma_log_int_loop(a as int, big_b as int, k as nat);
    }
    proof {
        assert((big_b as int) * (FIX_ONE as int) <= u128::MAX as int) by (nonlinear_arith)
            requires
                (big_b as int) <= 0xFFFFFFFFFFFFFFFFu64 as int,
                FIX_ONE as int == 0x400000000000u128 as int,
        ;
    }
    let y = (big_b * FIX_ONE) / ap;
    proof {
        assert((y as int) < 10 * (FIX_ONE as int)) by (nonlinear_arith)
            requires
                y as int == ((big_b as int) * (FIX_ONE as int)) / (ap as int),
                (big_b as int) < 10 * (ap as int),
                (ap as int) >= 1,
                (FIX_ONE as int) >= 1,
        ;
    }
    let (d1, z1) = frac_round(y);
    let (d2, z2) = frac_round(z1);
    let (d3, _z3) = frac_round(z2);
    proof {
        reveal_with_fuel(pow10, 3);
        reveal_with_fuel(frac_digits, 4);
        assert(pow10(2) == 100);
        assert(pow10(1) == 10);
        assert(pow10(0) == 1);
        assert forall|d: nat|
            #![trigger d * pow10(0)]
            #![trigger d * pow10(1)]
            #![trigger d * pow10(2)]
            d * pow10(0) == d && d * pow10(1) == 10 * d && d * pow10(2) == 100 * d by {
            assert(d * pow10(0) == d && d * pow10(1) == 10 * d && d * pow10(2) == 100 * d)
                by (nonlinear_arith)
                requires
                    pow10(0) == 1,
                    pow10(1) == 10,
                    pow10(2) == 100,
            ;
        }
        assert(frac_digits(z2 as int, 1) == digit_of(tenth_pow_fix(z2 as int)) + frac_digits(
            shrink(tenth_pow_fix(z2 as int)),
            0,
        ));
        assert(frac_digits(z1 as int, 2) == 10 * digit_of(tenth_pow_fix(z1 as int))
            + frac_digits(z2 as int, 1));
        let zy = tenth_pow_fix(y as int);
        assert(frac_digits(y as int, 3) == digit_of(zy) * pow10(2) + frac_digits(
            shrink(zy),
            2,
        ));
        assert(z1 as int == shrink(zy));
        assert(frac_digits(y as int, 3) == 100 * digit_of(tenth_pow_fix(y as int))
            + frac_digits(z1 as int, 2));
    }
    1000 * (k as u64) + 100 * d1 + 10 * d2 + d3
}

/// The integer-part loop matches `log_int_part`.
proof fn lemma_log_int_loop(a: int, b: int, k: nat)
    requires
        1 <= a,
        a * pow10(k) <= b,
        b < 10 * (a * pow10(k)),
    ensures
        log_int_part(a, b) == k,
    decreases k,
{
    if k == 0 {
    } else {
        assert(pow10(k) == 10 * pow10((k - 1) as nat));
        assert(pow10((k - 1) as nat) >= 1) by {
            lemma_pow10_ge_pow2((k - 1) as nat);
        }
        assert(pow10(k) >= 10) by (nonlinear_arith)
            requires
                pow10(k) == 10 * pow10((k - 1) as nat),
                pow10((k - 1) as nat) >= 1,
        ;
        assert((10 * a) * pow10((k - 1) as nat) == a * pow10(k)) by (nonlinear_arith)
            requires
                pow10(k) == 10 * pow10((k - 1) as nat),
        ;
        lemma_log_int_loop(10 * a, b, (k - 1) as nat);
        assert(a * pow10(k) >= 10 * a) by (nonlinear_arith)
            requires
                a >= 1,
                pow10(k) >= 10,
        ;
        assert(b >= 10 * a);
        assert(log_int_part(a, b) == 1 + log_int_part(10 * a, b));
    }
}

/// Integer square root, by stepping.
pub open spec fn sqrt_floor(x: nat) -> nat
    decreases x,
{
    if x == 0 {
        0
    } else {
        let r = sqrt_floor((x - 1) as nat);
        if (r + 1) * (r + 1) <= x {
            (r + 1) as nat
        } else {
            r
        }
    }
}

/// `sqrt_floor` squares to at most its argument, and one more does not.
pub proof fn lemma_sqrt_floor(x: nat)
    ensures
        sqrt_floor(x) * sqrt_floor(x) <= x,
        x < (sqrt_floor(x) + 1) * (sqrt_floor(x) + 1),
    decreases x,
{
    if x == 0 {
        assert(sqrt_floor(x) == 0);
        assert(sqrt_floor(x) * sqrt_floor(x) <= x) by (nonlinear_arith)
            requires
                x == 0,
                sqrt_floor(x) == 0,
        ;
        assert(x < (sqrt_floor(x) + 1) * (sqrt_floor(x) + 1)) by (nonlinear_arith)
            requires
                x == 0,
                sqrt_floor(x) == 0,
        ;
    } else {
        lemma_sqrt_floor((x - 1) as nat);
        let r = sqrt_floor((x - 1) as nat);
        assert(r * r <= x - 1);
        assert((x - 1) < (r + 1) * (r + 1));
        if (r + 1) * (r + 1) <= x {
            assert(sqrt_floor(x) == r + 1);
            assert(x < (r + 2) * (r + 2)) by (nonlinear_arith)
                requires
                    x <= (r + 1) * (r + 1),
                    r >= 0,
            ;
            assert((sqrt_floor(x) + 1) * (sqrt_floor(x) + 1) == (r + 2) * (r + 2));
        } else {
            assert(sqrt_floor(x) == r);
            assert(r * r <= x);
            assert(x < (r + 1) * (r + 1));
        }
    }
}

/// Any root bracketing the argument is the integer square root.
pub proof fn lemma_sqrt_floor_unique(x: nat, r: nat)
    requires
        r * r <= x,
        x < (r + 1) * (r + 1),
    ensures
        r == sqrt_floor(x),
{
    lemma_sqrt_floor(x);
    let s = sqrt_floor(x);
    if r < s {
        assert((r + 1) * (r + 1) <= s * s) by (nonlinear_arith)
            requires
                r + 1 <= s,
                r >= 0,
        ;
        assert(false);
    }
    if s < r {
        assert((s + 1) * (s + 1) <= r * r) by (nonlinear_arith)
            requires
                s + 1 <= r,
                s >= 0,
        ;
        assert(false);
    }
}

/// The integer square root of a perfect square is exact.
pub proof fn lemma_sqrt_square(n: nat)
    ensures
        sqrt_floor(n * n) == n,
{
    assert(n * n < (n + 1) * (n + 1)) by (nonlinear_arith)
        requires
            n >= 0,
    ;
    lemma_sqrt_floor_unique(n * n, n);
}

/// Computes the integer square root.
pub fn isqrt(x: u128) -> (r: u64)
    ensures
        r as nat == sqrt_floor(x as nat),
{
    let mut lo: u64 = 0;
    let mut hi: u64 = u64::MAX;
    proof {
        assert((hi as int + 1) * (hi as int + 1) > u128::MAX as int) by (nonlinear_arith)
            requires
                hi as int == 0xFFFFFFFFFFFFFFFFu64 as int,
        ;
    }
    while lo < hi
        invariant
            lo <= hi,
            (lo as int) * (lo as int) <= x as int,
            (x as int) < (hi as int + 1) * (hi as int + 1),
        decreases hi - lo,
    {
        let mid = lo + (hi - lo) / 2 + 1;
        proof {
            assert((mid as int) * (mid as int) <= u128::MAX as int) by (nonlinear_arith)
                requires
                    0 <= mid as int,
                    mid as int <= 0xFFFFFFFFFFFFFFFFu64 as int,
        ;
        }
        if (mid as u128) * (mid as u128) <= x {
            lo = mid;
        } else {
            hi = mid - 1;
        }
    }
    proof {
        lemma_sqrt_floor_unique(x as nat, lo as nat);
    }
    lo
}

/// Largest value a histogram bucket may hold; counting saturates here so
/// that the similarity arithmetic, with its root taken at millionths scale,
/// stays exact in 128 bits.
pub const HIST_CAP: u64 = 0x3FFFF;

/// Dot product of two equally long vectors.
pub open spec fn dot(a: Seq<u64>, b: Seq<u64>) -> int
    decreases a.len(),
{
    if a.len() == 0 || b.len() == 0 {
        0
    } else {
        dot(a.drop_last(), b.drop_last()) + (a.last() as int) * (b.last() as int)
    }
}

/// A dot product of capped vectors is nonnegative and at most
/// `len * cap * cap`.
pub proof fn lemma_dot_bound(a: Seq<u64>, b: Seq<u64>, cap: int)
    requires
        a.len() == b.len(),
        cap >= 0,
        forall|i: int| 0 <= i < a.len() ==> #[trigger] a[i] <= cap,
        forall|i: int| 0 <= i < b.len() ==> #[trigger] b[i] <= cap,
    ensures
        0 <= dot(a, b),
        dot(a, b) <= a.len() * (cap * cap),
    decreases a.len(),
{
    if a.len() > 0 {
        assert(forall|i: int|
            0 <= i < a.len() - 1 ==> #[trigger] a.drop_last()[i] == a[i]);
        assert(forall|i: int|
            0 <= i < b.len() - 1 ==> #[trigger] b.drop_last()[i] == b[i]);
        lemma_dot_bound(a.drop_last(), b.drop_last(), cap);
        assert(a[a.len() - 1] <= cap);
        assert(b[b.len() - 1] <= cap);
        assert((a.last() as int) * (b.last() as int) <= cap * cap && 0 <= (a.last() as int) * (
        b.last() as int)) by (nonlinear_arith)
            requires
                0 <= a.last() as int <= cap,
                0 <= b.last() as int <= cap,
        ;
        assert((a.len() - 1) * (cap * cap) + cap * cap == a.len() * (cap * cap))
            by (nonlinear_arith)
            requires
                a.len() >= 1,
        ;
    }
}

/// Cauchy-Schwarz: the squared dot product never exceeds the product of the
/// squared norms.
#[verifier::rlimit(60)]
pub proof fn lemma_cauchy_schwarz(a: Seq<u64>, b: Seq<u64>)
    requires
        a.len() == b.len(),
    ensures
        dot(a, b) * dot(a, b) <= dot(a, a) * dot(b, b),
    decreases a.len(),
{
    if a.len() == 0 {
    } else {
        let ap = a.drop_last();
        let bp = b.drop_last();
        lemma_cauchy_schwarz(ap, bp);
        lemma_dot_bound(ap, bp, 0xFFFFFFFFFFFFFFFFu64 as int);
        lemma_dot_bound(ap, ap, 0xFFFFFFFFFFFFFFFFu64 as int);
        lemma_dot_bound(bp, bp, 0xFFFFFFFFFFFFFFFFu64 as int);
        let sab = dot(ap, bp);
        let saa = dot(ap, ap);
        let sbb = dot(bp, bp);
        let x = a.last() as int;
        let y = b.last() as int;
        assert(2 * (x * y) * sab <= x * x * sbb + y * y * saa) by (nonlinear_arith)
            requires
                sab * sab <= saa * sbb,
                saa >= 0,
                sbb >= 0,
                sab >= 0,
                x >= 0,
                y >= 0,
        ;
        assert((sab + x * y) * (sab + x * y) == sab * sab + 2 * (x * y) * sab + (x * y) * (x
            * y)) by (nonlinear_arith);
        assert((saa + x * x) * (sbb + y * y) == saa * sbb + saa * (y * y) + (x * x) * sbb + (x
            * x) * (y * y)) by (nonlinear_arith);
        assert((x * y) * (x * y) == (x * x) * (y * y)) by (nonlinear_arith);
        assert(saa * (y * y) == y * y * saa) by (nonlinear_arith);
        assert((x * x) * sbb == x * x * sbb) by (nonlinear_arith);
        assert((sab + x * y) * (sab + x * y) <= (saa + x * x) * (sbb + y * y));
    }
}

/// `mlog10` of equal arguments is zero: a token present in every record has
/// zero inverse document frequency.
pub proof fn lemma_mlog10_self(a: int)
    requires
        a >= 1,
    ensures
        mlog10(a, a) == 0,
{
    assert(log_int_part(a, a) == 0);
    let f = FIX_ONE as int;
    assert(pow10(0) == 1);
    let y = (a * f) / (a * pow10(0));
    assert(y == f) by (nonlinear_arith)
        requires
            a >= 1,
            f >= 1,
            y == (a * f) / (a * 1),
    ;
    assert((f * f) / f == f) by (nonlinear_arith)
        requires
            f >= 1,
    ;
    assert(tenth_pow_fix(f) == f);
    assert(digit_of(f) == 0);
    assert(shrink(f) == f);
    reveal_with_fuel(frac_digits, 4);
    assert(frac_digits(f, 1) == 0);
    assert(frac_digits(f, 2) == 0);
    assert(frac_digits(f, 3) == 0);
}

} // verus!
