//! Distance kernels over IEEE-754 single-precision bit patterns.
//!
//! Scalars are carried as `u32` bit patterns and the arithmetic the kernels
//! need (add, subtract, multiply, divide, square root) is implemented here on
//! the bit level in verified integer code, so that every distance value the
//! library reports is pinned down exactly by the specification. Results are
//! truncated toward zero at the 24-bit significand and subnormal values are
//! flushed to zero; both choices are visible in the specification.

use vstd::prelude::*;
use vstd::arithmetic::power2::{
    pow2, lemma_pow2_unfold, lemma_pow2_adds, lemma_pow2_pos, lemma2_to64, lemma2_to64_rest,
    lemma_pow2_strictly_increases,
};

verus! {

/// Canonical quiet-NaN bit pattern returned for every undefined operation.
pub const QNAN32: u32 = 0x7FC0_0000;

// --- fields of a bit pattern ---

/// Sign bit.
pub open spec fn f_sign(bits: u32) -> bool {
    bits >= 0x8000_0000
}

/// Biased exponent field.
pub open spec fn f_exp(bits: u32) -> int {
    (bits as int / 0x80_0000) % 0x100
}

/// Fraction field.
pub open spec fn f_frac(bits: u32) -> int {
    bits as int % 0x80_0000
}

pub open spec fn is_nan32(bits: u32) -> bool {
    f_exp(bits) == 0xff && f_frac(bits) != 0
}

pub open spec fn is_inf32(bits: u32) -> bool {
    f_exp(bits) == 0xff && f_frac(bits) == 0
}

pub open spec fn is_finite32(bits: u32) -> bool {
    f_exp(bits) != 0xff
}

/// Significand read from a finite pattern; subnormal patterns read as zero.
pub open spec fn f_mant(bits: u32) -> nat {
    if f_exp(bits) == 0 {
        0
    } else {
        (f_frac(bits) + 0x80_0000) as nat
    }
}

/// Effective biased exponent of a finite pattern; the significand times
/// `2^(f_e - 150)` is the magnitude of the value.
pub open spec fn f_e(bits: u32) -> int {
    if f_exp(bits) == 0 {
        1
    } else {
        f_exp(bits)
    }
}

/// The zero of the given sign.
pub open spec fn zero32(s: bool) -> u32 {
    if s {
        0x8000_0000u32
    } else {
        0u32
    }
}

/// The infinity of the given sign.
pub open spec fn inf32(s: bool) -> u32 {
    if s {
        0xFF80_0000u32
    } else {
        0x7F80_0000u32
    }
}

/// Sign flip: the negation of an IEEE value is its pattern with the sign bit
/// inverted.
pub open spec fn spec_neg32(bits: u32) -> u32 {
    if bits >= 0x8000_0000 {
        (bits - 0x8000_0000) as u32
    } else {
        (bits + 0x8000_0000) as u32
    }
}

/// Executable sign flip.
pub fn neg32(bits: u32) -> (r: u32)
    ensures
        r == spec_neg32(bits),
{
    if bits >= 0x8000_0000 {
        bits - 0x8000_0000
    } else {
        bits + 0x8000_0000
    }
}

// --- bit length ---

/// Number of binary digits of `m`.
pub open spec fn bitlen(m: nat) -> nat
    decreases m,
{
    if m == 0 {
        0nat
    } else {
        (1 + bitlen(m / 2)) as nat
    }
}

pub proof fn lemma_bitlen_bounds(m: nat)
    requires
        m >= 1,
    ensures
        bitlen(m) >= 1,
        pow2((bitlen(m) - 1) as nat) <= m < pow2(bitlen(m)),
    decreases m,
{
    reveal_with_fuel(bitlen, 3);
    if m == 1 {
        lemma2_to64();
        assert(bitlen(1nat) == 1);
    } else {
        lemma_bitlen_bounds(m / 2);
        let l = bitlen(m / 2);
        assert(l >= 1);
        assert(bitlen(m) == l + 1);
        lemma_pow2_unfold((l + 1) as nat);
        lemma_pow2_unfold(l);
        assert(pow2((l - 1) as nat) <= m / 2 < pow2(l));
        assert(m <= 2 * (m / 2) + 1);
        assert(2 * (m / 2) <= m);
        assert(pow2(l) == 2 * pow2((l - 1) as nat));
        assert(pow2(l) <= m);
        assert(m < pow2((l + 1) as nat));
    }
}

pub proof fn lemma_bitlen_le(m: nat, k: nat)
    requires
        m < pow2(k),
    ensures
        bitlen(m) <= k,
{
    if m >= 1 {
        lemma_bitlen_bounds(m);
        let l = bitlen(m);
        if l > k {
            lemma_pow2_strictly_increases(k, (l - 1) as nat);
            if k < l - 1 {
            } else {
                assert(k == l - 1);
            }
            assert(pow2(k) <= pow2((l - 1) as nat));
            assert(false);
        }
    }
}

/// Executable bit length.
pub fn bitlen_u64(m: u64) -> (r: u64)
    ensures
        r == bitlen(m as nat),
        r <= 64,
{
    let mut x = m;
    let mut l: u64 = 0;
    proof {
        lemma2_to64();
        lemma2_to64_rest();
        if m as nat >= 1 {
            lemma_bitlen_le(m as nat, 64);
        }
    }
    while x > 0
        invariant
            bitlen(m as nat) == l + bitlen(x as nat),
            l <= 64,
            bitlen(x as nat) + l == bitlen(m as nat),
            bitlen(m as nat) <= 64,
        decreases x,
    {
        x = x / 2;
        l = l + 1;
    }
    l
}

/// Executable power of two.
pub fn pow2_u64(k: u64) -> (r: u64)
    requires
        k <= 63,
    ensures
        r == pow2(k as nat),
{
    proof {
        lemma2_to64();
        lemma2_to64_rest();
    }
    let mut r: u64 = 1;
    let mut i: u64 = 0;
    while i < k
        invariant
            i <= k <= 63,
            r == pow2(i as nat),
        decreases k - i,
    {
        proof {
            lemma_pow2_unfold((i + 1) as nat);
            lemma_pow2_strictly_increases(i as nat, 63);
            lemma2_to64_rest();
        }
        r = r * 2;
        i = i + 1;
    }
    r
}

// --- normalize, truncate and pack ---

/// Packs sign `s` and magnitude `m * 2^(e - 150)` into a bit pattern,
/// truncating the significand toward zero to 24 bits. Overflow gives the
/// infinity of that sign; values below the normal range give the zero of
/// that sign.
#[verifier::opaque]
pub open spec fn norm_pack(s: bool, e: int, m: nat) -> u32
    recommends
        m >= 1,
{
    let l = bitlen(m);
    let e2 = if l > 24 {
        e + l - 24
    } else {
        e - (24 - l)
    };
    let m2 = if l > 24 {
        m / pow2((l - 24) as nat)
    } else {
        m * pow2((24 - l) as nat)
    };
    if e2 >= 255 {
        inf32(s)
    } else if e2 < 1 {
        zero32(s)
    } else if m2 < 0x80_0000 || m2 >= 0x100_0000 {
        zero32(s)
    } else {
        ((if s {
            0x8000_0000u32 as int
        } else {
            0
        }) + e2 * 0x80_0000 + (m2 - 0x80_0000)) as u32
    }
}

/// Executable form of [`norm_pack`].
pub fn norm_pack_exec(s: bool, e: i64, m: u64) -> (r: u32)
    requires
        1 <= m,
        m < 0x8_0000_0000_0000,
        -100000 <= e <= 100000,
    ensures
        r == norm_pack(s, e as int, m as nat),
{
    proof {
        reveal(norm_pack);
        lemma2_to64();
        lemma2_to64_rest();
        lemma_bitlen_le(m as nat, 51);
        lemma_bitlen_bounds(m as nat);
    }
    let l = bitlen_u64(m);
    let e2: i64;
    let m2: u64;
    if l > 24 {
        let d = pow2_u64(l - 24);
        proof {
            lemma_pow2_pos((l - 24) as nat);
        }
        e2 = e + (l as i64) - 24;
        m2 = m / d;
    } else {
        let d = pow2_u64(24 - l);
        proof {
            lemma_pow2_adds(l as nat, (24 - l) as nat);
            if l < 24 {
                lemma_pow2_strictly_increases(l as nat, 24);
            }
            assert(m < pow2(l as nat));
            assert(m * d < pow2(l as nat) * pow2((24 - l) as nat)) by (nonlinear_arith)
                requires
                    m < pow2(l as nat),
                    d == pow2((24 - l) as nat),
                    d >= 1,
            ;
            assert(pow2(24nat) == 0x100_0000);
        }
        e2 = e - (24 - (l as i64));
        m2 = m * d;
    }
    if e2 >= 255 {
        if s {
            0xFF80_0000
        } else {
            0x7F80_0000
        }
    } else if e2 < 1 {
        if s {
            0x8000_0000
        } else {
            0
        }
    } else if m2 < 0x80_0000 || m2 >= 0x100_0000 {
        if s {
            0x8000_0000
        } else {
            0
        }
    } else {
        let base: u32 = if s {
            0x8000_0000
        } else {
            0
        };
        base + (e2 as u32) * 0x80_0000 + (m2 as u32 - 0x80_0000)
    }
}

// --- integer square root ---

/// The integer square root, defined by counting up.
pub open spec fn spec_isqrt(n: nat) -> nat
    decreases n,
{
    if n == 0 {
        0nat
    } else {
        let r = spec_isqrt((n - 1) as nat);
        if (r + 1) * (r + 1) <= n {
            (r + 1) as nat
        } else {
            r
        }
    }
}

pub proof fn lemma_isqrt_bounds(n: nat)
    ensures
        spec_isqrt(n) * spec_isqrt(n) <= n,
        n < (spec_isqrt(n) + 1) * (spec_isqrt(n) + 1),
    decreases n,
{
    reveal_with_fuel(spec_isqrt, 2);
    if n == 0 {
        assert(spec_isqrt(0nat) == 0);
        assert(spec_isqrt(n) * spec_isqrt(n) <= n) by (nonlinear_arith)
            requires
                n == 0,
                spec_isqrt(n) == 0,
        ;
        assert(n < (spec_isqrt(n) + 1) * (spec_isqrt(n) + 1)) by (nonlinear_arith)
            requires
                n == 0,
                spec_isqrt(n) == 0,
        ;
    }
    if n > 0 {
        lemma_isqrt_bounds((n - 1) as nat);
        let r0 = spec_isqrt((n - 1) as nat);
        assert(r0 * r0 <= n - 1 && n - 1 < (r0 + 1) * (r0 + 1));
        if (r0 + 1) * (r0 + 1) <= n {
            assert(spec_isqrt(n) == (r0 + 1) as nat);
            let q = spec_isqrt(n);
            assert(q == r0 + 1);
            assert(q * q <= n) by (nonlinear_arith)
                requires
                    q == r0 + 1,
                    (r0 + 1) * (r0 + 1) <= n,
            ;
            assert(n <= (r0 + 1) * (r0 + 1));
            assert(n < (q + 1) * (q + 1)) by (nonlinear_arith)
                requires
                    q == r0 + 1,
                    n <= (r0 + 1) * (r0 + 1),
            ;
        } else {
            assert(spec_isqrt(n) == r0);
            let q = spec_isqrt(n);
            assert(q * q <= n);
            assert(n < (q + 1) * (q + 1));
        }
    }
}

pub proof fn lemma_isqrt_unique(n: nat, r: nat)
    requires
        r * r <= n,
        n < (r + 1) * (r + 1),
    ensures
        r == spec_isqrt(n),
{
    lemma_isqrt_bounds(n);
    let q = spec_isqrt(n);
    if r < q {
        assert((r + 1) * (r + 1) <= q * q) by (nonlinear_arith)
            requires
                r + 1 <= q,
        ;
        assert(false);
    }
    if q < r {
        assert((q + 1) * (q + 1) <= r * r) by (nonlinear_arith)
            requires
                q + 1 <= r,
        ;
        assert(false);
    }
}

/// Executable integer square root by bisection.
pub fn isqrt_u64(n: u64) -> (r: u64)
    requires
        n < 0x10_0000_0000_0000,
    ensures
        r == spec_isqrt(n as nat),
{
    let mut lo: u64 = 0;
    let mut hi: u64 = 0x800_0000;
    proof {
        assert((0x800_0000u64 as int) * (0x800_0000u64 as int) > n);
    }
    while lo + 1 < hi
        invariant
            lo < hi <= 0x800_0000,
            lo * lo <= n,
            n < hi * hi,
        decreases hi - lo,
    {
        let mid = lo + (hi - lo) / 2;
        proof {
            assert(mid * mid <= 0x800_0000u64 * 0x800_0000u64) by (nonlinear_arith)
                requires
                    mid <= 0x800_0000u64,
            ;
        }
        if mid * mid <= n {
            lo = mid;
        } else {
            hi = mid;
        }
    }
    proof {
        lemma_isqrt_unique(n as nat, lo as nat);
    }
    lo
}


// --- the four arithmetic operations and the square root ---

/// Exponent field, executable.
pub fn exp_of(bits: u32) -> (r: u32)
    ensures
        r == f_exp(bits),
{
    (bits / 0x80_0000) % 0x100
}

/// Fraction field, executable.
pub fn frac_of(bits: u32) -> (r: u32)
    ensures
        r == f_frac(bits),
{
    bits % 0x80_0000
}

/// Addition of two aligned magnitudes; `(eb, mb)` is the operand with the
/// larger magnitude.
pub open spec fn add_core(sb: bool, eb: int, mb: nat, ss: bool, es: int, ms: nat) -> u32
    recommends
        es <= eb,
        eb > es || ms <= mb,
{
    let d = eb - es;
    if d > 26 {
        norm_pack(sb, eb, mb)
    } else {
        let abig = mb * pow2(d as nat);
        if sb == ss {
            norm_pack(sb, es, (abig + ms) as nat)
        } else if abig == ms {
            0u32
        } else {
            norm_pack(sb, es, (abig - ms) as nat)
        }
    }
}

/// IEEE-754 single addition on bit patterns, truncating, subnormals flushed.
#[verifier::opaque]
pub open spec fn spec_add32(a: u32, b: u32) -> u32 {
    if is_nan32(a) || is_nan32(b) {
        QNAN32
    } else if is_inf32(a) && is_inf32(b) {
        if f_sign(a) == f_sign(b) {
            a
        } else {
            QNAN32
        }
    } else if is_inf32(a) {
        a
    } else if is_inf32(b) {
        b
    } else if f_mant(a) == 0 && f_mant(b) == 0 {
        if f_sign(a) == f_sign(b) {
            zero32(f_sign(a))
        } else {
            zero32(false)
        }
    } else if f_mant(a) == 0 {
        b
    } else if f_mant(b) == 0 {
        a
    } else if f_e(a) > f_e(b) || (f_e(a) == f_e(b) && f_mant(a) >= f_mant(b)) {
        add_core(f_sign(a), f_e(a), f_mant(a), f_sign(b), f_e(b), f_mant(b))
    } else {
        add_core(f_sign(b), f_e(b), f_mant(b), f_sign(a), f_e(a), f_mant(a))
    }
}

/// Executable form of [`add_core`].
fn add_core_exec(sb: bool, eb: i64, mb: u64, ss: bool, es: i64, ms: u64) -> (r: u32)
    requires
        1 <= es <= eb <= 254,
        0x80_0000 <= mb < 0x100_0000,
        0x80_0000 <= ms < 0x100_0000,
        eb > es || ms <= mb,
    ensures
        r == add_core(sb, eb as int, mb as nat, ss, es as int, ms as nat),
{
    let d = eb - es;
    if d > 26 {
        norm_pack_exec(sb, eb, mb)
    } else {
        let p = pow2_u64(d as u64);
        proof {
            lemma2_to64();
            lemma2_to64_rest();
            if d > 0 {
                lemma_pow2_strictly_increases(0nat, d as nat);
                lemma_pow2_unfold(d as nat);
            }
            assert(pow2(26nat) == 0x400_0000);
            if d < 26 {
                lemma_pow2_strictly_increases(d as nat, 26);
            }
            assert(p <= 0x400_0000);
            assert(mb * p < 0x100_0000u64 * 0x400_0000u64) by (nonlinear_arith)
                requires
                    mb < 0x100_0000u64,
                    p <= 0x400_0000u64,
                    p >= 1,
            ;
            assert(mb * p >= mb) by (nonlinear_arith)
                requires
                    p >= 1,
                    mb >= 1,
            ;
            if d > 0 {
                assert(mb * p >= mb * 2) by (nonlinear_arith)
                    requires
                        p >= 2,
                        mb >= 1,
                ;
                assert(mb * 2 >= 2 * 0x80_0000) by (nonlinear_arith)
                    requires
                        mb >= 0x80_0000,
                ;
            }
        }
        let abig = mb * p;
        if sb == ss {
            norm_pack_exec(sb, es, abig + ms)
        } else if abig == ms {
            0u32
        } else {
            proof {
                if eb == es {
                    assert(abig >= ms);
                } else {
                    assert(abig >= 2 * 0x80_0000);
                }
            }
            norm_pack_exec(sb, es, abig - ms)
        }
    }
}

/// Executable IEEE-754 single addition on bit patterns.
pub fn add32(a: u32, b: u32) -> (r: u32)
    ensures
        r == spec_add32(a, b),
{
    proof {
        reveal(spec_add32);
    }
    let ea = exp_of(a);
    let fa = frac_of(a);
    let eb = exp_of(b);
    let fb = frac_of(b);
    let a_nan = ea == 0xff && fa != 0;
    let b_nan = eb == 0xff && fb != 0;
    let a_inf = ea == 0xff && fa == 0;
    let b_inf = eb == 0xff && fb == 0;
    let sa = a >= 0x8000_0000;
    let sb = b >= 0x8000_0000;
    if a_nan || b_nan {
        QNAN32
    } else if a_inf && b_inf {
        if sa == sb {
            a
        } else {
            QNAN32
        }
    } else if a_inf {
        a
    } else if b_inf {
        b
    } else {
        let ma: u64 = if ea == 0 {
            0
        } else {
            fa as u64 + 0x80_0000
        };
        let mb: u64 = if eb == 0 {
            0
        } else {
            fb as u64 + 0x80_0000
        };
        let xa: i64 = if ea == 0 {
            1
        } else {
            ea as i64
        };
        let xb: i64 = if eb == 0 {
            1
        } else {
            eb as i64
        };
        if ma == 0 && mb == 0 {
            if sa == sb {
                if sa {
                    0x8000_0000
                } else {
                    0
                }
            } else {
                0
            }
        } else if ma == 0 {
            b
        } else if mb == 0 {
            a
        } else if xa > xb || (xa == xb && ma >= mb) {
            add_core_exec(sa, xa, ma, sb, xb, mb)
        } else {
            add_core_exec(sb, xb, mb, sa, xa, ma)
        }
    }
}

/// Subtraction: addition of the negated second operand.
pub open spec fn spec_sub32(a: u32, b: u32) -> u32 {
    spec_add32(a, spec_neg32(b))
}

/// Executable subtraction.
pub fn sub32(a: u32, b: u32) -> (r: u32)
    ensures
        r == spec_sub32(a, b),
{
    add32(a, neg32(b))
}

/// IEEE-754 single multiplication on bit patterns, truncating, subnormals
/// flushed.
#[verifier::opaque]
pub open spec fn spec_mul32(a: u32, b: u32) -> u32 {
    if is_nan32(a) || is_nan32(b) {
        QNAN32
    } else {
        let s = f_sign(a) != f_sign(b);
        if is_inf32(a) || is_inf32(b) {
            if (is_finite32(a) && f_mant(a) == 0) || (is_finite32(b) && f_mant(b) == 0) {
                QNAN32
            } else {
                inf32(s)
            }
        } else if f_mant(a) == 0 || f_mant(b) == 0 {
            zero32(s)
        } else {
            norm_pack(s, f_e(a) + f_e(b) - 150, f_mant(a) * f_mant(b))
        }
    }
}

/// Executable IEEE-754 single multiplication on bit patterns.
pub fn mul32(a: u32, b: u32) -> (r: u32)
    ensures
        r == spec_mul32(a, b),
{
    proof {
        reveal(spec_mul32);
    }
    let ea = exp_of(a);
    let fa = frac_of(a);
    let eb = exp_of(b);
    let fb = frac_of(b);
    let a_nan = ea == 0xff && fa != 0;
    let b_nan = eb == 0xff && fb != 0;
    let a_inf = ea == 0xff && fa == 0;
    let b_inf = eb == 0xff && fb == 0;
    let sa = a >= 0x8000_0000;
    let sb = b >= 0x8000_0000;
    let s = sa != sb;
    if a_nan || b_nan {
        QNAN32
    } else {
        let ma: u64 = if ea == 0 {
            0
        } else {
            fa as u64 + 0x80_0000
        };
        let mb: u64 = if eb == 0 {
            0
        } else {
            fb as u64 + 0x80_0000
        };
        let xa: i64 = if ea == 0 {
            1
        } else {
            ea as i64
        };
        let xb: i64 = if eb == 0 {
            1
        } else {
            eb as i64
        };
        if a_inf || b_inf {
            if (!a_inf && ma == 0) || (!b_inf && mb == 0) {
                QNAN32
            } else {
                if s {
                    0xFF80_0000
                } else {
                    0x7F80_0000
                }
            }
        } else if ma == 0 || mb == 0 {
            if s {
                0x8000_0000
            } else {
                0
            }
        } else {
            proof {
                assert(ma * mb < 0x100_0000u64 * 0x100_0000u64) by (nonlinear_arith)
                    requires
                        ma < 0x100_0000u64,
                        mb < 0x100_0000u64,
                ;
                assert(ma * mb >= 1) by (nonlinear_arith)
                    requires
                        ma >= 1,
                        mb >= 1,
                ;
            }
            norm_pack_exec(s, xa + xb - 150, ma * mb)
        }
    }
}

/// IEEE-754 single division on bit patterns, truncating, subnormals flushed.
#[verifier::opaque]
pub open spec fn spec_div32(a: u32, b: u32) -> u32 {
    if is_nan32(a) || is_nan32(b) {
        QNAN32
    } else {
        let s = f_sign(a) != f_sign(b);
        if is_inf32(a) && is_inf32(b) {
            QNAN32
        } else if is_inf32(a) {
            inf32(s)
        } else if is_inf32(b) {
            zero32(s)
        } else if f_mant(b) == 0 {
            if f_mant(a) == 0 {
                QNAN32
            } else {
                inf32(s)
            }
        } else if f_mant(a) == 0 {
            zero32(s)
        } else {
            norm_pack(s, f_e(a) - f_e(b) + 124, (f_mant(a) * pow2(26)) / f_mant(b))
        }
    }
}

/// Executable IEEE-754 single division on bit patterns.
pub fn div32(a: u32, b: u32) -> (r: u32)
    ensures
        r == spec_div32(a, b),
{
    proof {
        reveal(spec_div32);
    }
    let ea = exp_of(a);
    let fa = frac_of(a);
    let eb = exp_of(b);
    let fb = frac_of(b);
    let a_nan = ea == 0xff && fa != 0;
    let b_nan = eb == 0xff && fb != 0;
    let a_inf = ea == 0xff && fa == 0;
    let b_inf = eb == 0xff && fb == 0;
    let sa = a >= 0x8000_0000;
    let sb = b >= 0x8000_0000;
    let s = sa != sb;
    if a_nan || b_nan {
        QNAN32
    } else if a_inf && b_inf {
        QNAN32
    } else if a_inf {
        if s {
            0xFF80_0000
        } else {
            0x7F80_0000
        }
    } else if b_inf {
        if s {
            0x8000_0000
        } else {
            0
        }
    } else {
        let ma: u64 = if ea == 0 {
            0
        } else {
            fa as u64 + 0x80_0000
        };
        let mb: u64 = if eb == 0 {
            0
        } else {
            fb as u64 + 0x80_0000
        };
        let xa: i64 = if ea == 0 {
            1
        } else {
            ea as i64
        };
        let xb: i64 = if eb == 0 {
            1
        } else {
            eb as i64
        };
        if mb == 0 {
            if ma == 0 {
                QNAN32
            } else {
                if s {
                    0xFF80_0000
                } else {
                    0x7F80_0000
                }
            }
        } else if ma == 0 {
            if s {
                0x8000_0000
            } else {
                0
            }
        } else {
            proof {
                lemma2_to64();
                lemma2_to64_rest();
                assert(pow2(26nat) == 0x400_0000);
                assert(ma * 0x400_0000u64 < 0x100_0000u64 * 0x400_0000u64) by (nonlinear_arith)
                    requires
                        ma < 0x100_0000u64,
                ;
                assert(ma * 0x400_0000u64 >= 0x400_0000u64) by (nonlinear_arith)
                    requires
                        ma >= 1,
                ;
                assert((ma as int * 0x400_0000) / (mb as int) >= 1) by (nonlinear_arith)
                    requires
                        ma as int * 0x400_0000 >= 0x400_0000,
                        1 <= mb < 0x100_0000u64,
                ;
                assert((ma as int * 0x400_0000) / (mb as int) <= ma as int * 0x400_0000)
                    by (nonlinear_arith)
                    requires
                        mb >= 1,
                ;
            }
            let q = (ma * 0x400_0000) / mb;
            norm_pack_exec(s, xa - xb + 124, q)
        }
    }
}

/// IEEE-754 single square root on bit patterns, truncating, subnormals
/// flushed; negative non-zero operands give the quiet NaN.
#[verifier::opaque]
pub open spec fn spec_sqrt32(a: u32) -> u32 {
    if is_nan32(a) {
        QNAN32
    } else if is_finite32(a) && f_mant(a) == 0 {
        zero32(f_sign(a))
    } else if f_sign(a) {
        QNAN32
    } else if is_inf32(a) {
        a
    } else {
        let p: int = if f_e(a) % 2 == 0 {
            26
        } else {
            27
        };
        norm_pack(false, 150 + (f_e(a) - 150 - p) / 2, spec_isqrt(f_mant(a) * pow2(p as nat)))
    }
}

/// Executable IEEE-754 single square root on bit patterns.
pub fn sqrt32(a: u32) -> (r: u32)
    ensures
        r == spec_sqrt32(a),
{
    proof {
        reveal(spec_sqrt32);
    }
    let ea = exp_of(a);
    let fa = frac_of(a);
    let sa = a >= 0x8000_0000;
    if ea == 0xff && fa != 0 {
        QNAN32
    } else if ea != 0xff && (ea == 0) {
        if sa {
            0x8000_0000
        } else {
            0
        }
    } else if sa {
        QNAN32
    } else if ea == 0xff {
        a
    } else {
        let ma: u64 = fa as u64 + 0x80_0000;
        let xa: i64 = ea as i64;
        let p: i64 = if xa % 2 == 0 {
            26
        } else {
            27
        };
        let pw = pow2_u64(p as u64);
        proof {
            lemma2_to64();
            lemma2_to64_rest();
            assert(pow2(26nat) == 0x400_0000 && pow2(27nat) == 0x800_0000);
            assert(ma * pw < 0x100_0000u64 * 0x800_0000u64) by (nonlinear_arith)
                requires
                    ma < 0x100_0000u64,
                    pw <= 0x800_0000u64,
            ;
            assert(ma * pw >= 0x400_0000u64) by (nonlinear_arith)
                requires
                    ma >= 1,
                    pw >= 0x400_0000u64,
            ;
        }
        let big = ma * pw;
        let rt = isqrt_u64(big);
        proof {
            lemma_isqrt_bounds(big as nat);
            if rt == 0 {
                assert((big as nat) < (spec_isqrt(big as nat) + 1) * (spec_isqrt(big as nat) + 1));
                assert(big < 1) by (nonlinear_arith)
                    requires
                        spec_isqrt(big as nat) == 0,
                        (big as nat) < (spec_isqrt(big as nat) + 1) * (spec_isqrt(big as nat)
                            + 1),
                ;
                assert(false);
            }
            assert(rt as int * rt as int <= big);
            if rt > 0x800_0000 {
                assert(rt as int * rt as int > 0x800_0000 * 0x800_0000) by (nonlinear_arith)
                    requires
                        rt > 0x800_0000,
                ;
                assert(false);
            }
        }
        norm_pack_exec(false, 150 + (xa - 150 - p) / 2, rt)
    }
}

// --- kernels ---

/// Left fold of the scalar dot product from position `i` onward.
pub open spec fn dot_acc(a: Seq<u32>, b: Seq<u32>, i: int, acc: u32) -> u32
    decreases a.len() - i,
{
    if i < 0 || i >= a.len() {
        acc
    } else {
        dot_acc(a, b, i + 1, spec_add32(acc, spec_mul32(a[i], b[i])))
    }
}

/// Scalar reference dot product: terms added left to right from a zero
/// accumulator.
pub open spec fn spec_dot_scalar(a: Seq<u32>, b: Seq<u32>) -> u32 {
    dot_acc(a, b, 0, 0)
}

/// Sum of one 16-lane block of products, left to right, starting from the
/// product at `base + j - 1` already in `acc`.
pub open spec fn dot_chunk(a: Seq<u32>, b: Seq<u32>, base: int, j: int, acc: u32) -> u32
    decreases 16 - j,
{
    if j < 1 || j >= 16 {
        acc
    } else {
        dot_chunk(a, b, base, j + 1, spec_add32(acc, spec_mul32(a[base + j], b[base + j])))
    }
}

/// Fold of whole 16-lane blocks of the dot product.
pub open spec fn dot_blocks(a: Seq<u32>, b: Seq<u32>, blk: int, acc: u32) -> u32
    decreases a.len() / 16 - blk,
{
    if blk < 0 || blk >= a.len() / 16 {
        acc
    } else {
        dot_blocks(
            a,
            b,
            blk + 1,
            spec_add32(acc, dot_chunk(a, b, 16 * blk, 1, spec_mul32(a[16 * blk], b[16 * blk]))),
        )
    }
}

/// Blocked dot product: 16-lane blocks, then a scalar tail.
pub open spec fn spec_dot(a: Seq<u32>, b: Seq<u32>) -> u32 {
    dot_acc(a, b, 16 * (a.len() as int / 16), dot_blocks(a, b, 0, 0))
}

/// Squared difference of two scalars. The magnitudes of `x - y` and
/// `y - x` coincide and the square clears the sign, so the difference is
/// taken with the larger bit pattern first; the result is symmetric by
/// construction.
pub open spec fn spec_sqdiff(x: u32, y: u32) -> u32 {
    if x >= y {
        spec_mul32(spec_sub32(x, y), spec_sub32(x, y))
    } else {
        spec_mul32(spec_sub32(y, x), spec_sub32(y, x))
    }
}

/// Executable squared difference.
pub fn sqdiff32(x: u32, y: u32) -> (r: u32)
    ensures
        r == spec_sqdiff(x, y),
{
    let d = if x >= y {
        sub32(x, y)
    } else {
        sub32(y, x)
    };
    mul32(d, d)
}

/// Left fold of the scalar squared-distance sum from position `i` onward.
pub open spec fn euclid_acc(a: Seq<u32>, b: Seq<u32>, i: int, acc: u32) -> u32
    decreases a.len() - i,
{
    if i < 0 || i >= a.len() {
        acc
    } else {
        euclid_acc(a, b, i + 1, spec_add32(acc, spec_sqdiff(a[i], b[i])))
    }
}

/// Scalar reference squared Euclidean distance.
pub open spec fn spec_euclid_sq_scalar(a: Seq<u32>, b: Seq<u32>) -> u32 {
    euclid_acc(a, b, 0, 0)
}

/// Sum of one 16-lane block of squared differences.
pub open spec fn euclid_chunk(a: Seq<u32>, b: Seq<u32>, base: int, j: int, acc: u32) -> u32
    decreases 16 - j,
{
    if j < 1 || j >= 16 {
        acc
    } else {
        euclid_chunk(a, b, base, j + 1, spec_add32(acc, spec_sqdiff(a[base + j], b[base + j])))
    }
}

/// First squared difference of a block.
pub open spec fn euclid_chunk_head(a: Seq<u32>, b: Seq<u32>, base: int) -> u32 {
    spec_sqdiff(a[base], b[base])
}

/// Fold of whole 16-lane blocks of squared differences.
pub open spec fn euclid_blocks(a: Seq<u32>, b: Seq<u32>, blk: int, acc: u32) -> u32
    decreases a.len() / 16 - blk,
{
    if blk < 0 || blk >= a.len() / 16 {
        acc
    } else {
        euclid_blocks(
            a,
            b,
            blk + 1,
            spec_add32(acc, euclid_chunk(a, b, 16 * blk, 1, euclid_chunk_head(a, b, 16 * blk))),
        )
    }
}

/// Blocked squared Euclidean distance: 16-lane blocks, then a scalar tail.
pub open spec fn spec_euclid_sq(a: Seq<u32>, b: Seq<u32>) -> u32 {
    euclid_acc(a, b, 16 * (a.len() as int / 16), euclid_blocks(a, b, 0, 0))
}

/// Whether the value is strictly above one half: positive, not NaN, and the
/// pattern is above that of 0.5 (for non-negative patterns the IEEE order is
/// the unsigned integer order).
pub open spec fn spec_gt_half(x: u32) -> bool {
    !is_nan32(x) && x < 0x8000_0000 && x > 0x3F00_0000
}

/// Number of positions up to `i` where exactly one of the two scalars is
/// above one half.
pub open spec fn ham_count(a: Seq<u32>, b: Seq<u32>, i: int) -> nat
    decreases i,
{
    if i <= 0 {
        0nat
    } else {
        ham_count(a, b, i - 1) + (if spec_gt_half(a[i - 1]) != spec_gt_half(b[i - 1]) {
            1nat
        } else {
            0nat
        })
    }
}

/// The count as a scalar bit pattern; counts below `2^24` convert exactly.
pub open spec fn count_bits(n: nat) -> u32 {
    if n == 0 {
        0u32
    } else {
        norm_pack(false, 150, n)
    }
}

/// Hamming distance between the threshold patterns of the two vectors.
pub open spec fn spec_hamming(a: Seq<u32>, b: Seq<u32>) -> u32 {
    count_bits(ham_count(a, b, a.len() as int))
}

/// Cosine distance: one minus the dot product over the product of norms;
/// exactly one when either norm is a zero of either sign, tested before the
/// product is formed, so a zero norm beside an overflowed one still gives
/// one rather than the product's NaN.
pub open spec fn spec_cosine(a: Seq<u32>, b: Seq<u32>) -> u32 {
    let d = spec_dot(a, b);
    let na = spec_sqrt32(spec_dot(a, a));
    let nb = spec_sqrt32(spec_dot(b, b));
    if na == 0 || na == 0x8000_0000 || nb == 0 || nb == 0x8000_0000 {
        0x3F80_0000u32
    } else {
        spec_sub32(0x3F80_0000, spec_div32(d, spec_mul32(na, nb)))
    }
}

/// Scalar reference dot product.
pub fn dot_product_scalar(a: &[u32], b: &[u32]) -> (r: u32)
    requires
        a@.len() == b@.len(),
    ensures
        r == spec_dot_scalar(a@, b@),
{
    let mut acc: u32 = 0;
    let mut i: usize = 0;
    while i < a.len()
        invariant
            0 <= i <= a@.len(),
            a@.len() == b@.len(),
            dot_acc(a@, b@, i as int, acc) == spec_dot_scalar(a@, b@),
        decreases a@.len() - i,
    {
        acc = add32(acc, mul32(a[i], b[i]));
        i += 1;
    }
    acc
}

/// Scalar reference squared Euclidean distance.
pub fn euclidean_distance_squared_scalar(a: &[u32], b: &[u32]) -> (r: u32)
    requires
        a@.len() == b@.len(),
    ensures
        r == spec_euclid_sq_scalar(a@, b@),
{
    let mut acc: u32 = 0;
    let mut i: usize = 0;
    while i < a.len()
        invariant
            0 <= i <= a@.len(),
            a@.len() == b@.len(),
            euclid_acc(a@, b@, i as int, acc) == spec_euclid_sq_scalar(a@, b@),
        decreases a@.len() - i,
    {
        acc = add32(acc, sqdiff32(a[i], b[i]));
        i += 1;
    }
    acc
}

/// Dot product over 16-lane blocks with a scalar tail.
pub fn dot_product(a: &[u32], b: &[u32]) -> (r: u32)
    requires
        a@.len() == b@.len(),
    ensures
        r == spec_dot(a@, b@),
{
    let n = a.len();
    let nblocks = n / 16;
    let mut acc: u32 = 0;
    let mut blk: usize = 0;
    while blk < nblocks
        invariant
            0 <= blk <= nblocks,
            n == a@.len(),
            nblocks == a@.len() / 16,
            a@.len() == b@.len(),
            dot_blocks(a@, b@, blk as int, acc) == dot_blocks(a@, b@, 0, 0),
        decreases nblocks - blk,
    {
        proof {
            assert(blk * 16 + 16 <= a@.len()) by (nonlinear_arith)
                requires
                    blk < a@.len() / 16,
            ;
        }
        let base = blk * 16;
        proof {
            assert(base == 16 * blk);
        }
        let mut t: u32 = mul32(a[base], b[base]);
        let mut j: usize = 1;
        while j < 16
            invariant
                1 <= j <= 16,
                base == 16 * blk,
                base + 16 <= a@.len(),
                a@.len() == b@.len(),
                dot_chunk(a@, b@, base as int, j as int, t) == dot_chunk(
                    a@,
                    b@,
                    base as int,
                    1,
                    spec_mul32(a@[base as int], b@[base as int]),
                ),
            decreases 16 - j,
        {
            t = add32(t, mul32(a[base + j], b[base + j]));
            j += 1;
        }
        acc = add32(acc, t);
        blk += 1;
    }
    let mut i: usize = nblocks * 16;
    proof {
        assert(i == 16 * (a@.len() / 16));
        assert(i <= a@.len()) by (nonlinear_arith)
            requires
                i == 16 * (a@.len() / 16),
        ;
    }
    while i < a.len()
        invariant
            16 * (a@.len() / 16) <= i <= a@.len(),
            a@.len() == b@.len(),
            dot_acc(a@, b@, i as int, acc) == spec_dot(a@, b@),
        decreases a@.len() - i,
    {
        acc = add32(acc, mul32(a[i], b[i]));
        i += 1;
    }
    acc
}

/// Squared Euclidean distance over 16-lane blocks with a scalar tail.
pub fn euclidean_distance_squared(a: &[u32], b: &[u32]) -> (r: u32)
    requires
        a@.len() == b@.len(),
    ensures
        r == spec_euclid_sq(a@, b@),
{
    let n = a.len();
    let nblocks = n / 16;
    let mut acc: u32 = 0;
    let mut blk: usize = 0;
    while blk < nblocks
        invariant
            0 <= blk <= nblocks,
            n == a@.len(),
            nblocks == a@.len() / 16,
            a@.len() == b@.len(),
            euclid_blocks(a@, b@, blk as int, acc) == euclid_blocks(a@, b@, 0, 0),
        decreases nblocks - blk,
    {
        proof {
            assert(blk * 16 + 16 <= a@.len()) by (nonlinear_arith)
                requires
                    blk < a@.len() / 16,
            ;
        }
        let base = blk * 16;
        proof {
            assert(base == 16 * blk);
        }
        let mut t: u32 = sqdiff32(a[base], b[base]);
        let mut j: usize = 1;
        while j < 16
            invariant
                1 <= j <= 16,
                base == 16 * blk,
                base + 16 <= a@.len(),
                a@.len() == b@.len(),
                euclid_chunk(a@, b@, base as int, j as int, t) == euclid_chunk(
                    a@,
                    b@,
                    base as int,
                    1,
                    euclid_chunk_head(a@, b@, base as int),
                ),
            decreases 16 - j,
        {
            t = add32(t, sqdiff32(a[base + j], b[base + j]));
            j += 1;
        }
        acc = add32(acc, t);
        blk += 1;
    }
    let mut i: usize = nblocks * 16;
    proof {
        assert(i == 16 * (a@.len() / 16));
        assert(i <= a@.len()) by (nonlinear_arith)
            requires
                i == 16 * (a@.len() / 16),
        ;
    }
    while i < a.len()
        invariant
            16 * (a@.len() / 16) <= i <= a@.len(),
            a@.len() == b@.len(),
            euclid_acc(a@, b@, i as int, acc) == spec_euclid_sq(a@, b@),
        decreases a@.len() - i,
    {
        acc = add32(acc, sqdiff32(a[i], b[i]));
        i += 1;
    }
    acc
}

/// Euclidean distance: the square root of the blocked squared distance.
pub fn euclidean_distance(a: &[u32], b: &[u32]) -> (r: u32)
    requires
        a@.len() == b@.len(),
    ensures
        r == spec_sqrt32(spec_euclid_sq(a@, b@)),
{
    sqrt32(euclidean_distance_squared(a, b))
}

/// Cosine distance.
pub fn cosine_distance(a: &[u32], b: &[u32]) -> (r: u32)
    requires
        a@.len() == b@.len(),
    ensures
        r == spec_cosine(a@, b@),
{
    let d = dot_product(a, b);
    let na = sqrt32(dot_product(a, a));
    let nb = sqrt32(dot_product(b, b));
    if na == 0 || na == 0x8000_0000 || nb == 0 || nb == 0x8000_0000 {
        0x3F80_0000
    } else {
        sub32(0x3F80_0000, div32(d, mul32(na, nb)))
    }
}

/// Whether the scalar is strictly above one half, executable.
pub fn gt_half(x: u32) -> (r: bool)
    ensures
        r == spec_gt_half(x),
{
    let e = exp_of(x);
    let f = frac_of(x);
    !(e == 0xff && f != 0) && x < 0x8000_0000 && x > 0x3F00_0000
}

/// Hamming distance between threshold patterns, returned as a scalar bit
/// pattern.
pub fn hamming_distance(a: &[u32], b: &[u32]) -> (r: u32)
    requires
        a@.len() == b@.len(),
        a@.len() < 0x8_0000_0000_0000,
    ensures
        r == spec_hamming(a@, b@),
{
    let mut cnt: u64 = 0;
    let mut i: usize = 0;
    while i < a.len()
        invariant
            0 <= i <= a@.len(),
            a@.len() == b@.len(),
            a@.len() < 0x8_0000_0000_0000,
            cnt == ham_count(a@, b@, i as int),
            cnt <= i,
        decreases a@.len() - i,
    {
        if gt_half(a[i]) != gt_half(b[i]) {
            cnt += 1;
        }
        i += 1;
    }
    if cnt == 0 {
        0
    } else {
        norm_pack_exec(false, 150, cnt)
    }
}

// --- metrics ---

/// The distance metric a collection or index orders by. Every metric is
/// normalized so that a lower value means a closer match.
#[derive(Debug, Clone, Copy, PartialEq, Eq, Hash, Structural)]
pub enum DistanceMetric {
    /// Euclidean distance.
    Euclidean,
    /// One minus the cosine similarity.
    Cosine,
    /// Negated dot product, so that lower still means closer.
    DotProduct,
    /// Number of positions whose threshold patterns differ.
    Hamming,
}

impl Default for DistanceMetric {
    /// The default metric.
    fn default() -> (r: Self)
        ensures
            r == DistanceMetric::Cosine,
    {
        DistanceMetric::Cosine
    }
}

/// The value `compute` returns for each metric.
pub open spec fn spec_metric(m: DistanceMetric, a: Seq<u32>, b: Seq<u32>) -> u32 {
    match m {
        DistanceMetric::Euclidean => spec_sqrt32(spec_euclid_sq(a, b)),
        DistanceMetric::Cosine => spec_cosine(a, b),
        DistanceMetric::DotProduct => spec_neg32(spec_dot(a, b)),
        DistanceMetric::Hamming => spec_hamming(a, b),
    }
}

impl DistanceMetric {
    /// Computes the distance between two equal-length vectors of scalar bit
    /// patterns.
    pub fn compute(&self, a: &[u32], b: &[u32]) -> (r: u32)
        requires
            a@.len() == b@.len(),
            a@.len() < 0x8_0000_0000_0000,
        ensures
            r == spec_metric(*self, a@, b@),
    {
        match self {
            DistanceMetric::Euclidean => euclidean_distance(a, b),
            DistanceMetric::Cosine => cosine_distance(a, b),
            DistanceMetric::DotProduct => neg32(dot_product(a, b)),
            DistanceMetric::Hamming => hamming_distance(a, b),
        }
    }

    /// All metrics order with lower values more similar.
    pub fn lower_is_better(&self) -> (r: bool)
        ensures
            r,
    {
        true
    }
}

/// A computed distance tagged with the metric that produced it.
#[derive(Debug, Clone, Copy, PartialEq, Eq, Structural)]
pub struct Distance {
    /// Bit pattern of the distance value.
    pub value: u32,
    /// Metric that produced it.
    pub metric: DistanceMetric,
}

impl Distance {
    /// Pairs a distance value with its metric.
    pub fn new(value: u32, metric: DistanceMetric) -> (r: Self)
        ensures
            r.value == value,
            r.metric == metric,
    {
        Distance { value, metric }
    }
}

// --- laws: symmetry and identity of the metrics ---

/// Multiplication is symmetric in its operands.
pub proof fn lemma_mul32_comm(a: u32, b: u32)
    ensures
        spec_mul32(a, b) == spec_mul32(b, a),
{
    reveal(spec_mul32);
    assert(f_mant(a) * f_mant(b) == f_mant(b) * f_mant(a));
}

/// The squared difference is symmetric in its operands.
pub proof fn lemma_sqdiff_symm(x: u32, y: u32)
    ensures
        spec_sqdiff(x, y) == spec_sqdiff(y, x),
{
}

proof fn lemma_dot_acc_comm(a: Seq<u32>, b: Seq<u32>, i: int, acc: u32)
    requires
        a.len() == b.len(),
    ensures
        dot_acc(a, b, i, acc) == dot_acc(b, a, i, acc),
    decreases a.len() - i,
{
    if 0 <= i < a.len() {
        lemma_mul32_comm(a[i], b[i]);
        lemma_dot_acc_comm(a, b, i + 1, spec_add32(acc, spec_mul32(a[i], b[i])));
    }
}

proof fn lemma_dot_chunk_comm(a: Seq<u32>, b: Seq<u32>, base: int, j: int, acc: u32)
    requires
        a.len() == b.len(),
    ensures
        dot_chunk(a, b, base, j, acc) == dot_chunk(b, a, base, j, acc),
    decreases 16 - j,
{
    if 1 <= j < 16 {
        lemma_mul32_comm(a[base + j], b[base + j]);
        lemma_dot_chunk_comm(a, b, base, j + 1, spec_add32(acc, spec_mul32(a[base + j], b[base + j])));
    }
}

proof fn lemma_dot_blocks_comm(a: Seq<u32>, b: Seq<u32>, blk: int, acc: u32)
    requires
        a.len() == b.len(),
    ensures
        dot_blocks(a, b, blk, acc) == dot_blocks(b, a, blk, acc),
    decreases a.len() / 16 - blk,
{
    if 0 <= blk < a.len() / 16 {
        lemma_mul32_comm(a[16 * blk], b[16 * blk]);
        lemma_dot_chunk_comm(a, b, 16 * blk, 1, spec_mul32(a[16 * blk], b[16 * blk]));
        lemma_dot_blocks_comm(
            a,
            b,
            blk + 1,
            spec_add32(acc, dot_chunk(a, b, 16 * blk, 1, spec_mul32(a[16 * blk], b[16 * blk]))),
        );
    }
}

/// The blocked dot product is symmetric.
pub proof fn lemma_dot_comm(a: Seq<u32>, b: Seq<u32>)
    requires
        a.len() == b.len(),
    ensures
        spec_dot(a, b) == spec_dot(b, a),
{
    lemma_dot_blocks_comm(a, b, 0, 0);
    lemma_dot_acc_comm(a, b, 16 * (a.len() as int / 16), dot_blocks(a, b, 0, 0));
}

proof fn lemma_euclid_acc_symm(a: Seq<u32>, b: Seq<u32>, i: int, acc: u32)
    requires
        a.len() == b.len(),
    ensures
        euclid_acc(a, b, i, acc) == euclid_acc(b, a, i, acc),
    decreases a.len() - i,
{
    if 0 <= i < a.len() {
        lemma_sqdiff_symm(a[i], b[i]);
        lemma_euclid_acc_symm(a, b, i + 1, spec_add32(acc, spec_sqdiff(a[i], b[i])));
    }
}

proof fn lemma_euclid_chunk_symm(a: Seq<u32>, b: Seq<u32>, base: int, j: int, acc: u32)
    requires
        a.len() == b.len(),
    ensures
        euclid_chunk(a, b, base, j, acc) == euclid_chunk(b, a, base, j, acc),
    decreases 16 - j,
{
    if 1 <= j < 16 {
        lemma_sqdiff_symm(a[base + j], b[base + j]);
        lemma_euclid_chunk_symm(a, b, base, j + 1, spec_add32(acc, spec_sqdiff(a[base + j], b[base + j])));
    }
}

proof fn lemma_euclid_blocks_symm(a: Seq<u32>, b: Seq<u32>, blk: int, acc: u32)
    requires
        a.len() == b.len(),
    ensures
        euclid_blocks(a, b, blk, acc) == euclid_blocks(b, a, blk, acc),
    decreases a.len() / 16 - blk,
{
    if 0 <= blk < a.len() / 16 {
        lemma_sqdiff_symm(a[16 * blk], b[16 * blk]);
        lemma_euclid_chunk_symm(a, b, 16 * blk, 1, euclid_chunk_head(a, b, 16 * blk));
        lemma_euclid_blocks_symm(
            a,
            b,
            blk + 1,
            spec_add32(acc, euclid_chunk(a, b, 16 * blk, 1, euclid_chunk_head(a, b, 16 * blk))),
        );
    }
}

/// The blocked squared Euclidean distance is symmetric.
pub proof fn lemma_euclid_sq_symm(a: Seq<u32>, b: Seq<u32>)
    requires
        a.len() == b.len(),
    ensures
        spec_euclid_sq(a, b) == spec_euclid_sq(b, a),
{
    lemma_euclid_blocks_symm(a, b, 0, 0);
    lemma_euclid_acc_symm(a, b, 16 * (a.len() as int / 16), euclid_blocks(a, b, 0, 0));
}

proof fn lemma_ham_count_symm(a: Seq<u32>, b: Seq<u32>, i: int)
    requires
        a.len() == b.len(),
    ensures
        ham_count(a, b, i) == ham_count(b, a, i),
    decreases i,
{
    if i > 0 {
        lemma_ham_count_symm(a, b, i - 1);
    }
}

/// Every metric is symmetric: the distance from `a` to `b` equals the
/// distance from `b` to `a`.
pub proof fn lemma_metric_symmetry(m: DistanceMetric, a: Seq<u32>, b: Seq<u32>)
    requires
        a.len() == b.len(),
    ensures
        spec_metric(m, a, b) == spec_metric(m, b, a),
{
    lemma_dot_comm(a, b);
    lemma_euclid_sq_symm(a, b);
    lemma_ham_count_symm(a, b, a.len() as int);
    lemma_dot_comm(a, a);
    lemma_dot_comm(b, b);
    lemma_mul32_comm(spec_sqrt32(spec_dot(a, a)), spec_sqrt32(spec_dot(b, b)));
}

/// Subtracting a finite scalar from itself gives positive zero.
pub proof fn lemma_sub32_same(x: u32)
    requires
        is_finite32(x),
    ensures
        spec_sub32(x, x) == 0,
{
    reveal(spec_add32);
    lemma2_to64();
    let nx = spec_neg32(x);
    assert(f_exp(nx) == f_exp(x) && f_frac(nx) == f_frac(x) && f_sign(nx) == !f_sign(x)) by {
        lemma_neg32_fields(x);
    }
    if f_mant(x) == 0 {
    } else {
        assert(f_mant(x) * pow2(0nat) == f_mant(x));
    }
}

/// Negation flips the sign bit and leaves the exponent and fraction fields
/// unchanged.
pub proof fn lemma_neg32_fields(x: u32)
    ensures
        f_exp(spec_neg32(x)) == f_exp(x),
        f_frac(spec_neg32(x)) == f_frac(x),
        f_sign(spec_neg32(x)) == !f_sign(x),
        f_mant(spec_neg32(x)) == f_mant(x),
        f_e(spec_neg32(x)) == f_e(x),
{
    let y = spec_neg32(x);
    assert(y as int % 0x80_0000 == x as int % 0x80_0000 && (y as int / 0x80_0000) % 0x100 == (
    x as int / 0x80_0000) % 0x100) by (bit_vector)
        requires
            y == (if x >= 0x8000_0000 {
                (x - 0x8000_0000) as u32
            } else {
                (x + 0x8000_0000) as u32
            }),
    ;
}

/// The sum of two positive zeros is positive zero.
pub proof fn lemma_add32_zero()
    ensures
        spec_add32(0, 0) == 0,
{
    reveal(spec_add32);
}

/// Whether every element of the sequence is a finite scalar.
pub open spec fn all_finite32(a: Seq<u32>) -> bool {
    forall|i: int| 0 <= i < a.len() ==> is_finite32(#[trigger] a[i])
}

/// The squared difference of a finite scalar with itself is positive zero.
pub proof fn lemma_sqdiff_same(x: u32)
    requires
        is_finite32(x),
    ensures
        spec_sqdiff(x, x) == 0,
{
    lemma_sub32_same(x);
    reveal(spec_mul32);
}

proof fn lemma_euclid_acc_same(a: Seq<u32>, i: int)
    requires
        all_finite32(a),
    ensures
        euclid_acc(a, a, i, 0) == 0,
    decreases a.len() - i,
{
    if 0 <= i < a.len() {
        lemma_sqdiff_same(a[i]);
        lemma_add32_zero();
        lemma_euclid_acc_same(a, i + 1);
    }
}

proof fn lemma_euclid_chunk_same(a: Seq<u32>, base: int, j: int)
    requires
        all_finite32(a),
        0 <= base,
        base + 16 <= a.len(),
    ensures
        euclid_chunk(a, a, base, j, 0) == 0,
    decreases 16 - j,
{
    if 1 <= j < 16 {
        lemma_sqdiff_same(a[base + j]);
        lemma_add32_zero();
        lemma_euclid_chunk_same(a, base, j + 1);
    }
}

proof fn lemma_euclid_blocks_same(a: Seq<u32>, blk: int)
    requires
        all_finite32(a),
    ensures
        euclid_blocks(a, a, blk, 0) == 0,
    decreases a.len() / 16 - blk,
{
    if 0 <= blk < a.len() / 16 {
        assert(16 * blk + 16 <= a.len()) by (nonlinear_arith)
            requires
                0 <= blk < a.len() / 16,
        ;
        lemma_sqdiff_same(a[16 * blk]);
        lemma_euclid_chunk_same(a, 16 * blk, 1);
        lemma_add32_zero();
        lemma_euclid_blocks_same(a, blk + 1);
    }
}

/// The Euclidean distance of a vector of finite scalars to itself is exactly
/// positive zero, both squared and after the square root.
pub proof fn lemma_euclidean_identity(a: Seq<u32>)
    requires
        all_finite32(a),
    ensures
        spec_euclid_sq(a, a) == 0,
        spec_metric(DistanceMetric::Euclidean, a, a) == 0,
{
    lemma_euclid_blocks_same(a, 0);
    lemma_euclid_acc_same(a, 16 * (a.len() as int / 16));
    reveal(spec_sqrt32);
}

proof fn lemma_ham_count_same(a: Seq<u32>, i: int)
    ensures
        ham_count(a, a, i) == 0,
    decreases i,
{
    if i > 0 {
        lemma_ham_count_same(a, i - 1);
    }
}

/// The Hamming distance of a vector to itself is exactly zero.
pub proof fn lemma_hamming_identity(a: Seq<u32>)
    ensures
        spec_metric(DistanceMetric::Hamming, a, a) == 0,
{
    lemma_ham_count_same(a, a.len() as int);
}

} // verus!
