//! IEEE 754 doubles, read from their 64 bits.
//!
//! A number travels through this library as the bit pattern of a double.
//! This module says which number a pattern stands for and decides, in
//! integer arithmetic alone, whether the double sum of that number and the
//! compression bias 100 is a whole number between 1 and 251: the test that
//! selects a one-byte code for a numeric value.
//!
//! A finite double is `significand * 2^(scale - 1074)` with a sign, so
//! every value times `2^1074` is an integer. All statements here are about
//! those integers.

use vstd::arithmetic::power2::{
    lemma2_to64, lemma2_to64_rest, lemma_pow2_adds, lemma_pow2_pos,
    lemma_pow2_strictly_increases, lemma_pow2_unfold, pow2,
};
use vstd::prelude::*;

verus! {

/// Two to the 52nd: the weight of the implicit leading bit.
pub const HIDDEN_BIT: u64 = 0x10_0000_0000_0000;

/// The bits of the system-missing value, the most negative finite double.
pub const SYSMIS_BITS: u64 = 0xFFEF_FFFF_FFFF_FFFF;

/// The 11-bit exponent field.
pub open spec fn exponent_field(bits: u64) -> int {
    (bits as int / 0x10_0000_0000_0000) % 2048
}

/// The 52-bit fraction field.
pub open spec fn fraction_field(bits: u64) -> int {
    bits as int % 0x10_0000_0000_0000
}

/// Whether the sign bit is set.
pub open spec fn is_negative(bits: u64) -> bool {
    bits >= 0x8000_0000_0000_0000
}

/// Neither an infinity nor a NaN.
pub open spec fn is_finite(bits: u64) -> bool {
    exponent_field(bits) != 2047
}

/// The integer significand: the fraction, with the implicit leading bit
/// for a normal number.
pub open spec fn significand(bits: u64) -> int {
    if exponent_field(bits) == 0 {
        fraction_field(bits)
    } else {
        0x10_0000_0000_0000 + fraction_field(bits)
    }
}

/// The power of two that scales the significand, counted from `2^-1074`.
pub open spec fn scale(bits: u64) -> nat {
    if exponent_field(bits) == 0 {
        0
    } else {
        (exponent_field(bits) - 1) as nat
    }
}

/// The value of a finite double, times `2^1074`.
pub open spec fn scaled_value(bits: u64) -> int {
    if is_negative(bits) {
        -(significand(bits) * pow2(scale(bits)))
    } else {
        significand(bits) * pow2(scale(bits))
    }
}

/// The exact sum of the value and the bias 100, times `2^1074`.
pub open spec fn biased_sum(bits: u64) -> int {
    scaled_value(bits) + 100 * pow2(1074)
}

/// The binary order of magnitude of `k`, for `k` from 1 to 255.
pub open spec fn binade(k: int) -> nat {
    if k < 2 {
        0
    } else if k < 4 {
        1
    } else if k < 8 {
        2
    } else if k < 16 {
        3
    } else if k < 32 {
        4
    } else if k < 64 {
        5
    } else if k < 128 {
        6
    } else {
        7
    }
}

/// Whether `k` is one of 1, 2, 4, ..., 128.
pub open spec fn is_binade_start(k: int) -> bool {
    k == 1 || k == 2 || k == 4 || k == 8 || k == 16 || k == 32 || k == 64 || k == 128
}

/// Half the distance from the double `k` up to the next double, times
/// `2^1074`. Doubles in the binade of `k` are `2^(binade - 52)` apart.
pub open spec fn half_gap_above(k: int) -> int {
    pow2(binade(k) + 1021) as int
}

/// Half the distance from the double `k` down to the previous double,
/// times `2^1074`. Below a power of two the doubles are twice as dense.
pub open spec fn half_gap_below(k: int) -> int {
    if is_binade_start(k) {
        pow2(binade(k) + 1020) as int
    } else {
        pow2(binade(k) + 1021) as int
    }
}

/// Whether rounding `x / 2^1074` to the nearest double, ties to even, gives
/// the whole number `k`, for `k` from 1 to 255.
///
/// A whole number below 256 has an even significand, so both ties fall to
/// it: the interval is closed at both ends.
pub open spec fn rounds_to(x: int, k: int) -> bool {
    k * pow2(1074) - half_gap_below(k) <= x <= k * pow2(1074) + half_gap_above(k)
}

/// Whether the double sum of the number and 100 is the whole number `k`
/// between 1 and 251: whether `k` is the one-byte code of the number.
pub open spec fn has_opcode(bits: u64, k: int) -> bool {
    is_finite(bits) && 1 <= k <= 251 && rounds_to(biased_sum(bits), k)
}

/// The one-byte code of a number, if it has one.
pub open spec fn opcode(bits: u64) -> Option<u8> {
    if exists|k: int| has_opcode(bits, k) {
        Some((choose|k: int| has_opcode(bits, k)) as u8)
    } else {
        None
    }
}

/// Whether the number is exactly the whole number `n`.
pub open spec fn is_integer(bits: u64, n: int) -> bool {
    is_finite(bits) && scaled_value(bits) == n * pow2(1074)
}

/// The largest distance above `k`, in units of `2^-sh`, that still rounds
/// to `k`.
spec fn tol_above(k: int, sh: nat) -> int {
    if sh + binade(k) >= 53 {
        pow2((sh + binade(k) - 53) as nat) as int
    } else {
        0
    }
}

/// The largest distance below `k`, in units of `2^-sh`, that still rounds
/// to `k`.
spec fn tol_below(k: int, sh: nat) -> int {
    if is_binade_start(k) {
        if sh + binade(k) >= 54 {
            pow2((sh + binade(k) - 54) as nat) as int
        } else {
            0
        }
    } else {
        tol_above(k, sh)
    }
}

/// `rounds_to`, restated in units of `2^-sh`.
spec fn near(x: int, sh: nat, k: int) -> bool {
    x - k * pow2(sh) <= tol_above(k, sh) && k * pow2(sh) - x <= tol_below(k, sh)
}

/// Comparing multiples of a positive unit is comparing the factors.
proof fn lemma_scaled_le(a: int, c: int, u: int)
    by (nonlinear_arith)
    requires
        u > 0,
    ensures
        (a * u <= c * u) == (a <= c),
{
}

/// A multiple of a unit is below the unit only if it is not positive.
proof fn lemma_scaled_le_small(a: int, g: int, u: int)
    by (nonlinear_arith)
    requires
        u > 0,
        0 <= g < u,
    ensures
        (a * u <= g) == (a <= 0),
{
}

/// A difference of multiples is the multiple of the difference.
proof fn lemma_distribute(x: int, k: int, s: int, u: int)
    by (nonlinear_arith)
    ensures
        x * u - k * (s * u) == (x - k * s) * u,
        k * (s * u) - x * u == (k * s - x) * u,
{
}

/// One side of a rounding interval, in units of `2^-sh`: a distance `a`
/// of units is within `2^g / 2^1074` exactly when it is within the
/// tolerance `2^(g + sh - 1074)`, or is not positive where that is below
/// one unit.
proof fn lemma_side(a: int, sh: nat, g: nat)
    requires
        sh <= 1074,
    ensures
        (a * pow2((1074 - sh) as nat) <= pow2(g)) == (a <= if g + sh >= 1074 {
            pow2((g + sh - 1074) as nat) as int
        } else {
            0
        }),
{
    let u = pow2((1074 - sh) as nat) as int;
    lemma_pow2_pos((1074 - sh) as nat);
    if g + sh >= 1074 {
        let c = pow2((g + sh - 1074) as nat) as int;
        lemma_pow2_adds((g + sh - 1074) as nat, (1074 - sh) as nat);
        assert(pow2(g) == c * u);
        lemma_scaled_le(a, c, u);
    } else {
        lemma_pow2_strictly_increases(g, (1074 - sh) as nat);
        lemma_scaled_le_small(a, pow2(g) as int, u);
    }
}

/// In units of `2^-sh`, rounding to `k` is being `near` to `k`.
proof fn lemma_rounds_in_units(x: int, sh: nat, k: int)
    requires
        sh <= 1074,
        1 <= k <= 255,
    ensures
        rounds_to(x * pow2((1074 - sh) as nat), k) == near(x, sh, k),
{
    let u = pow2((1074 - sh) as nat) as int;
    let s = pow2(sh) as int;
    lemma_pow2_adds(sh, (1074 - sh) as nat);
    assert(pow2(1074) == s * u);
    lemma_distribute(x, k, s, u);
    let b = binade(k);
    lemma_side(x - k * s, sh, b + 1021);
    if is_binade_start(k) {
        lemma_side(k * s - x, sh, b + 1020);
    } else {
        lemma_side(k * s - x, sh, b + 1021);
    }
}

/// Every tolerance is below half a whole.
proof fn lemma_tolerance_small(k: int, sh: nat)
    requires
        1 <= sh,
        1 <= k <= 255,
    ensures
        0 <= tol_above(k, sh) < pow2((sh - 1) as nat),
        0 <= tol_below(k, sh) < pow2((sh - 1) as nat),
{
    lemma_pow2_pos((sh - 1) as nat);
    let b = binade(k);
    if sh + b >= 53 {
        lemma_pow2_strictly_increases((sh + b - 53) as nat, (sh - 1) as nat);
    }
    if sh + b >= 54 {
        lemma_pow2_strictly_increases((sh + b - 54) as nat, (sh - 1) as nat);
    }
}

/// A number within half a whole of `k` is at least half a whole from
/// every other whole number.
proof fn lemma_far_apart(x: int, s: int, h: int, k: int, k2: int)
    by (nonlinear_arith)
    requires
        s == 2 * h,
        h > 0,
        k * s - h <= x < k * s + h,
        k2 != k,
    ensures
        k2 > k ==> k2 * s - x > h,
        k2 < k ==> x - k2 * s >= h,
{
}

/// A number whose nearest whole number is `k` rounds to no other whole
/// number.
proof fn lemma_only_nearest(x: int, sh: nat, k: int, k2: int)
    requires
        1 <= sh,
        1 <= k2 <= 255,
        k2 != k,
        k * pow2(sh) - pow2((sh - 1) as nat) <= x < k * pow2(sh) + pow2((sh - 1) as nat),
    ensures
        !near(x, sh, k2),
{
    lemma_tolerance_small(k2, sh);
    lemma_pow2_unfold(sh);
    lemma_pow2_pos((sh - 1) as nat);
    lemma_far_apart(x, pow2(sh) as int, pow2((sh - 1) as nat) as int, k, k2);
}

/// Bounds of a factor carry over to the product with a positive unit.
proof fn lemma_product_bounds(m: int, u: int, lo: int, hi: int)
    by (nonlinear_arith)
    requires
        u > 0,
        lo <= m < hi,
    ensures
        lo * u <= m * u < hi * u,
{
}

/// Multiplication associates and distributes.
proof fn lemma_times(a: int, b: int, u: int)
    by (nonlinear_arith)
    ensures
        a * (b * u) == (a * b) * u,
        (a + b) * u == a * u + b * u,
        (a - b) * u == a * u - b * u,
{
}

/// The fields of a pattern as the executable code computes them.
proof fn lemma_fields(bits: u64)
    ensures
        0 <= exponent_field(bits) <= 2047,
        0 <= fraction_field(bits) < 0x10_0000_0000_0000,
        is_negative(bits) == (bits as int / 0x10_0000_0000_0000 >= 2048),
{
}

/// A number of magnitude 512 or more has no one-byte code.
proof fn lemma_large(bits: u64, k: int)
    requires
        1032 <= exponent_field(bits),
    ensures
        !has_opcode(bits, k),
{
    if is_finite(bits) && 1 <= k <= 251 {
        let e = exponent_field(bits);
        let m = significand(bits);
        let u = pow2(scale(bits)) as int;
        let p = pow2(1074) as int;
        lemma_pow2_pos(scale(bits));
        lemma_pow2_pos(1074);
        lemma2_to64();
        lemma2_to64_rest();
        // 2^52 * 2^scale >= 2^52 * 2^1031 = 512 * 2^1074
        lemma_pow2_adds(52, scale(bits));
        lemma_pow2_adds(9, 1074);
        if scale(bits) > 1031 {
            lemma_pow2_strictly_increases(1083, 52 + scale(bits));
        }
        assert(pow2(52) == 0x10_0000_0000_0000);
        assert(0x10_0000_0000_0000 * u >= 512 * p);
        lemma_product_bounds(m, u, 0x10_0000_0000_0000, 0x20_0000_0000_0000);
        assert(m * u >= 512 * p);
        // the gaps are below 2^1074
        lemma_pow2_strictly_increases(binade(k) + 1021, 1074);
        lemma_pow2_strictly_increases(binade(k) + 1020, 1074);
        assert(k * p <= 251 * p) by (nonlinear_arith)
            requires
                k <= 251,
                p > 0,
        ;
        assert(k * p >= p) by (nonlinear_arith)
            requires
                k >= 1,
                p > 0,
        ;
    }
}

/// A number of magnitude below `2^-47` has the code 100.
proof fn lemma_tiny(bits: u64)
    requires
        exponent_field(bits) <= 975,
    ensures
        has_opcode(bits, 100),
{
    let m = significand(bits);
    let u = pow2(scale(bits)) as int;
    lemma_pow2_pos(scale(bits));
    lemma2_to64();
    lemma2_to64_rest();
    assert(pow2(53) == 0x20_0000_0000_0000);
    lemma_pow2_adds(53, scale(bits));
    if scale(bits) < 974 {
        lemma_pow2_strictly_increases(53 + scale(bits), 1027);
    }
    lemma_product_bounds(m, u, 0, 0x20_0000_0000_0000);
    assert(m * u < pow2(1027));
    assert(0 * u == 0);
}

/// For a normal number with `2^-47 <= |n| < 512`, the biased sum in
/// units of `2^-sh`, where `sh = 1075 - exponent`.
proof fn lemma_sum_in_units(bits: u64, sh: nat, x: int)
    requires
        976 <= exponent_field(bits) <= 1031,
        sh == 1075 - exponent_field(bits),
        x == if is_negative(bits) {
            100 * pow2(sh) - significand(bits)
        } else {
            100 * pow2(sh) + significand(bits)
        },
    ensures
        biased_sum(bits) == x * pow2((1074 - sh) as nat),
{
    let u = pow2((1074 - sh) as nat) as int;
    let s = pow2(sh) as int;
    let m = significand(bits);
    assert(scale(bits) == 1074 - sh);
    lemma_pow2_adds(sh, (1074 - sh) as nat);
    assert(pow2(1074) == s * u);
    lemma_times(100, s, u);
    lemma_times(100 * s, m, u);
}

/// Two to the `n`.
fn pow2_u128(n: u32) -> (r: u128)
    requires
        n <= 120,
    ensures
        r == pow2(n as nat),
        r <= 0x100_0000_0000_0000_0000_0000_0000_0000,
{
    let mut r: u128 = 1;
    let mut i: u32 = 0;
    proof {
        lemma2_to64();
    }
    while i < n
        invariant
            i <= n,
            n <= 120,
            r == pow2(i as nat),
            r <= 0x100_0000_0000_0000_0000_0000_0000_0000,
            i < 120 ==> r <= 0x80_0000_0000_0000_0000_0000_0000_0000,
        decreases n - i,
    {
        proof {
            lemma_pow2_unfold((i + 1) as nat);
            lemma_pow2_bound_120();
            if i + 1 < 119 {
                lemma_pow2_strictly_increases((i + 1) as nat, 119);
            }
        }
        r = r * 2;
        i = i + 1;
    }
    r
}

/// Two to the 119th and to the 120th.
proof fn lemma_pow2_bound_120()
    ensures
        pow2(120) == 0x100_0000_0000_0000_0000_0000_0000_0000,
        pow2(119) == 0x80_0000_0000_0000_0000_0000_0000_0000,
{
    lemma2_to64();
    lemma2_to64_rest();
    lemma_pow2_adds(60, 60);
    lemma_pow2_adds(60, 59);
    assert(pow2(60) == 0x1000_0000_0000_0000);
    assert(pow2(59) == 0x800_0000_0000_0000);
    assert(0x1000_0000_0000_0000 * 0x1000_0000_0000_0000
        == 0x100_0000_0000_0000_0000_0000_0000_0000) by (nonlinear_arith);
    assert(0x1000_0000_0000_0000 * 0x800_0000_0000_0000
        == 0x80_0000_0000_0000_0000_0000_0000_0000) by (nonlinear_arith);
}

/// The binary order of magnitude of `k`.
fn binade_of(k: u128) -> (b: u32)
    requires
        1 <= k <= 255,
    ensures
        b == binade(k as int),
        b <= 7,
{
    if k < 2 {
        0
    } else if k < 4 {
        1
    } else if k < 8 {
        2
    } else if k < 16 {
        3
    } else if k < 32 {
        4
    } else if k < 64 {
        5
    } else if k < 128 {
        6
    } else {
        7
    }
}

/// The one-byte code of a number, if it has one.
///
/// `Some(k)` exactly when the number is finite and the double sum of the
/// number and the bias 100 is the whole number `k`, from 1 to 251. The sum
/// is rounded as the hardware rounds it, so a number very close to a whole
/// number has that number's code.
pub fn biased_opcode(bits: u64) -> (code: Option<u8>)
    ensures
        code == opcode(bits),
        match code {
            Some(k) => has_opcode(bits, k as int),
            None => forall|k: int| !has_opcode(bits, k),
        },
{
    let code = decide_opcode(bits);
    proof {
        if let Some(k) = code {
            lemma_opcode_unique(bits, k as int, choose|j: int| has_opcode(bits, j));
        }
    }
    code
}

/// The decision behind `biased_opcode`, stated over `has_opcode`.
fn decide_opcode(bits: u64) -> (code: Option<u8>)
    ensures
        match code {
            Some(k) => has_opcode(bits, k as int),
            None => forall|k: int| !has_opcode(bits, k),
        },
{
    let high: u64 = bits / HIDDEN_BIT;
    let e: u64 = high % 2048;
    let frac: u64 = bits % HIDDEN_BIT;
    let negative: bool = high >= 2048;
    proof {
        lemma_fields(bits);
    }
    if e >= 1032 {
        assert forall|k: int| !has_opcode(bits, k) by {
            lemma_large(bits, k);
        }
        return None;
    }
    if e <= 975 {
        proof {
            lemma_tiny(bits);
        }
        return Some(100);
    }
    let sh: u32 = (1075 - e) as u32;
    let whole: u128 = pow2_u128(sh);
    let half: u128 = pow2_u128(sh - 1);
    let sig: u128 = (HIDDEN_BIT + frac) as u128;
    proof {
        lemma_pow2_unfold(sh as nat);
        lemma_pow2_strictly_increases(sh as nat, 100);
        lemma_pow2_pos((sh - 1) as nat);
        lemma_pow2_100();
    }
    let base: u128 = 100 * whole;
    let ghost x: int = if negative {
        base as int - sig as int
    } else {
        base as int + sig as int
    };
    proof {
        lemma_sum_in_units(bits, sh as nat, x);
        assert forall|k: int| has_opcode(bits, k) == (1 <= k <= 251 && near(x, sh as nat, k)) by {
            if 1 <= k <= 251 {
                lemma_rounds_in_units(x, sh as nat, k);
            }
        }
    }
    if negative && sig >= base {
        assert forall|k: int| !has_opcode(bits, k) by {
            if 1 <= k <= 251 {
                lemma_tolerance_small(k, sh as nat);
                lemma_below_zero(x, whole as int, half as int, k);
            }
        }
        return None;
    }
    let xe: u128 = if negative { base - sig } else { base + sig };
    assert(xe == x);
    let k: u128 = (xe + half) / whole;
    proof {
        lemma_nearest(xe as int, whole as int, half as int, k as int);
    }
    if k < 1 || k > 251 {
        assert forall|k2: int| !has_opcode(bits, k2) by {
            if 1 <= k2 <= 251 {
                lemma_only_nearest(x, sh as nat, k as int, k2);
            }
        }
        return None;
    }
    let kx: u128 = k * whole;
    let b: u32 = binade_of(k);
    let t: u32 = sh + b;
    let above: u128 = if t >= 53 { pow2_u128(t - 53) } else { 0 };
    let start: bool = k == 1 || k == 2 || k == 4 || k == 8 || k == 16 || k == 32 || k == 64 || k
        == 128;
    let below: u128 = if start {
        if t >= 54 {
            pow2_u128(t - 54)
        } else {
            0
        }
    } else {
        above
    };
    proof {
        assert(above == tol_above(k as int, sh as nat));
        assert(below == tol_below(k as int, sh as nat));
        lemma_tolerance_small(k as int, sh as nat);
    }
    let ok: bool = if xe >= kx { xe - kx <= above } else { kx - xe <= below };
    assert(ok == near(x, sh as nat, k as int));
    if ok {
        Some(k as u8)
    } else {
        assert forall|k2: int| !has_opcode(bits, k2) by {
            if 1 <= k2 <= 251 && k2 != k {
                lemma_only_nearest(x, sh as nat, k as int, k2);
            }
        }
        None
    }
}

/// Two to the 100th.
proof fn lemma_pow2_100()
    ensures
        pow2(100) == 0x10_0000_0000_0000_0000_0000_0000,
{
    lemma2_to64();
    lemma2_to64_rest();
    lemma_pow2_adds(50, 50);
    assert(pow2(50) == 0x4_0000_0000_0000);
    assert(0x4_0000_0000_0000 * 0x4_0000_0000_0000 == 0x10_0000_0000_0000_0000_0000_0000)
        by (nonlinear_arith);
}

/// A number that is not positive is more than half a whole below
/// every positive whole number.
proof fn lemma_below_zero(x: int, s: int, h: int, k: int)
    by (nonlinear_arith)
    requires
        s == 2 * h,
        h > 0,
        x <= 0,
        k >= 1,
    ensures
        k * s - x > h,
{
}

/// Adding a half and dividing by the whole gives the nearest whole
/// number.
proof fn lemma_nearest(x: int, s: int, h: int, k: int)
    by (nonlinear_arith)
    requires
        s == 2 * h,
        h > 0,
        x >= 0,
        k == (x + h) / s,
    ensures
        k * s - h <= x < k * s + h,
        k >= 0,
{
}

/// A number has at most one one-byte code.
pub proof fn lemma_opcode_unique(bits: u64, j: int, k: int)
    requires
        has_opcode(bits, j),
        has_opcode(bits, k),
    ensures
        j == k,
{
    let p = pow2(1074) as int;
    lemma_pow2_pos(1074);
    lemma_pow2_strictly_increases(binade(j) + 1021, 1073);
    lemma_pow2_strictly_increases(binade(k) + 1021, 1073);
    lemma_pow2_strictly_increases(binade(j) + 1020, 1073);
    lemma_pow2_strictly_increases(binade(k) + 1020, 1073);
    lemma_pow2_unfold(1074);
    let h = pow2(1073) as int;
    if j < k {
        assert(k * p >= j * p + p) by (nonlinear_arith)
            requires
                j < k,
                p > 0,
        ;
    }
    if k < j {
        assert(j * p >= k * p + p) by (nonlinear_arith)
            requires
                k < j,
                p > 0,
        ;
    }
}

/// A whole number from -99 to 151 has the code that is 100 more.
pub proof fn lemma_integer_opcode(bits: u64, n: int)
    requires
        is_integer(bits, n),
        -99 <= n <= 151,
    ensures
        has_opcode(bits, n + 100),
{
    let p = pow2(1074) as int;
    lemma_times(n, 100, p);
    assert(biased_sum(bits) == (n + 100) * p) by (nonlinear_arith)
        requires
            biased_sum(bits) == n * p + 100 * p,
    ;
}

} // verus!
