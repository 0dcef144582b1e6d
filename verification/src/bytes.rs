//! Byte-level primitives shared by the storage codecs: little-endian integer
//! fields and decimal renderings of integers, each with an exact
//! specification and a round-trip proof.

use vstd::prelude::*;

verus! {

// --- little-endian integer fields ---

/// The four little-endian bytes of a 32-bit integer.
pub open spec fn le32(n: u32) -> Seq<u8> {
    seq![
        (n & 0xff) as u8,
        ((n >> 8) & 0xff) as u8,
        ((n >> 16) & 0xff) as u8,
        ((n >> 24) & 0xff) as u8,
    ]
}

/// The eight little-endian bytes of a 64-bit integer.
pub open spec fn le64(n: u64) -> Seq<u8> {
    seq![
        (n & 0xff) as u8,
        ((n >> 8) & 0xff) as u8,
        ((n >> 16) & 0xff) as u8,
        ((n >> 24) & 0xff) as u8,
        ((n >> 32) & 0xff) as u8,
        ((n >> 40) & 0xff) as u8,
        ((n >> 48) & 0xff) as u8,
        ((n >> 56) & 0xff) as u8,
    ]
}

/// The 32-bit integer whose little-endian bytes are the first four of `s`.
pub open spec fn read_le32(s: Seq<u8>) -> u32
    recommends
        s.len() >= 4,
{
    ((s[0] as u32) | ((s[1] as u32) << 8) | ((s[2] as u32) << 16) | ((s[3] as u32) << 24)) as u32
}

/// The 64-bit integer whose little-endian bytes are the first eight of `s`.
pub open spec fn read_le64(s: Seq<u8>) -> u64
    recommends
        s.len() >= 8,
{
    ((s[0] as u64) | ((s[1] as u64) << 8) | ((s[2] as u64) << 16) | ((s[3] as u64) << 24)
        | ((s[4] as u64) << 32) | ((s[5] as u64) << 40) | ((s[6] as u64) << 48)
        | ((s[7] as u64) << 56)) as u64
}

pub proof fn lemma_le32_roundtrip(n: u32)
    ensures
        read_le32(le32(n)) == n,
{
    assert((((n & 0xff) as u8 as u32) | ((((n >> 8) & 0xff) as u8 as u32) << 8)
        | ((((n >> 16) & 0xff) as u8 as u32) << 16) | ((((n >> 24) & 0xff) as u8 as u32) << 24))
        as u32 == n) by (bit_vector);
}

pub proof fn lemma_le64_roundtrip(n: u64)
    ensures
        read_le64(le64(n)) == n,
{
    assert((((n & 0xff) as u8 as u64) | ((((n >> 8) & 0xff) as u8 as u64) << 8)
        | ((((n >> 16) & 0xff) as u8 as u64) << 16) | ((((n >> 24) & 0xff) as u8 as u64) << 24)
        | ((((n >> 32) & 0xff) as u8 as u64) << 32) | ((((n >> 40) & 0xff) as u8 as u64) << 40)
        | ((((n >> 48) & 0xff) as u8 as u64) << 48) | ((((n >> 56) & 0xff) as u8 as u64) << 56))
        as u64 == n) by (bit_vector);
}

/// Appends the four little-endian bytes of `n` to `out`.
pub fn push_le32(out: &mut Vec<u8>, n: u32)
    ensures
        final(out)@ == old(out)@ + le32(n),
{
    out.push((n & 0xff) as u8);
    out.push(((n >> 8) & 0xff) as u8);
    out.push(((n >> 16) & 0xff) as u8);
    out.push(((n >> 24) & 0xff) as u8);
    assert(out@ =~= old(out)@ + le32(n));
}

/// Appends the eight little-endian bytes of `n` to `out`.
pub fn push_le64(out: &mut Vec<u8>, n: u64)
    ensures
        final(out)@ == old(out)@ + le64(n),
{
    out.push((n & 0xff) as u8);
    out.push(((n >> 8) & 0xff) as u8);
    out.push(((n >> 16) & 0xff) as u8);
    out.push(((n >> 24) & 0xff) as u8);
    out.push(((n >> 32) & 0xff) as u8);
    out.push(((n >> 40) & 0xff) as u8);
    out.push(((n >> 48) & 0xff) as u8);
    out.push(((n >> 56) & 0xff) as u8);
    assert(out@ =~= old(out)@ + le64(n));
}

/// Reads the 32-bit little-endian field starting at `i`.
pub fn get_le32(b: &[u8], i: usize) -> (r: u32)
    requires
        i + 4 <= b@.len(),
    ensures
        r == read_le32(b@.subrange(i as int, i + 4)),
{
    let r = (b[i] as u32) | ((b[i + 1] as u32) << 8) | ((b[i + 2] as u32) << 16)
        | ((b[i + 3] as u32) << 24);
    proof {
        let s = b@.subrange(i as int, i + 4);
        assert(s[3] == b@[i + 3]);
        assert(s[0] == b@[i as int] && s[1] == b@[i + 1] && s[2] == b@[i + 2]);
    }
    r
}

/// Reads the 64-bit little-endian field starting at `i`.
pub fn get_le64(b: &[u8], i: usize) -> (r: u64)
    requires
        i + 8 <= b@.len(),
    ensures
        r == read_le64(b@.subrange(i as int, i + 8)),
{
    let r = (b[i] as u64) | ((b[i + 1] as u64) << 8) | ((b[i + 2] as u64) << 16)
        | ((b[i + 3] as u64) << 24) | ((b[i + 4] as u64) << 32) | ((b[i + 5] as u64) << 40)
        | ((b[i + 6] as u64) << 48) | ((b[i + 7] as u64) << 56);
    proof {
        let s = b@.subrange(i as int, i + 8);
        assert(s[0] == b@[i as int] && s[1] == b@[i + 1] && s[2] == b@[i + 2] && s[3] == b@[i + 3]
            && s[4] == b@[i + 4] && s[5] == b@[i + 5] && s[6] == b@[i + 6] && s[7] == b@[i + 7]);
    }
    r
}

// --- decimal renderings ---

/// ASCII decimal digits of a non-negative integer, most significant first.
pub open spec fn dec_of(n: nat) -> Seq<u8>
    decreases n,
{
    if n < 10 {
        seq![(48 + n) as u8]
    } else {
        dec_of(n / 10) + seq![(48 + n % 10) as u8]
    }
}

/// ASCII decimal rendering of a signed integer: a minus sign before the
/// digits of the magnitude when negative.
pub open spec fn dec_of_int(n: int) -> Seq<u8> {
    if n < 0 {
        seq![45u8] + dec_of((-n) as nat)
    } else {
        dec_of(n as nat)
    }
}

/// Whether `b` is an ASCII decimal digit.
pub open spec fn is_digit(b: u8) -> bool {
    48 <= b <= 57
}

/// The value of a sequence of ASCII decimal digits.
pub open spec fn dec_val(s: Seq<u8>) -> nat
    decreases s.len(),
{
    if s.len() == 0 {
        0
    } else {
        dec_val(s.drop_last()) * 10 + (if is_digit(s.last()) {
            (s.last() - 48) as nat
        } else {
            0
        })
    }
}

pub proof fn lemma_dec_of_digits(n: nat)
    ensures
        dec_of(n).len() >= 1,
        forall|i: int| 0 <= i < dec_of(n).len() ==> is_digit(#[trigger] dec_of(n)[i]),
    decreases n,
{
    if n >= 10 {
        lemma_dec_of_digits(n / 10);
    }
}

pub proof fn lemma_dec_roundtrip(n: nat)
    ensures
        dec_val(dec_of(n)) == n,
    decreases n,
{
    if n < 10 {
        let s = dec_of(n);
        assert(s =~= seq![(48 + n) as u8]);
        assert(s.drop_last() =~= Seq::<u8>::empty());
        assert((48 + n) as u8 == 48 + n);
        assert(dec_val(s.drop_last()) == 0);
        assert(dec_val(s) == 0 * 10 + ((s.last() - 48) as nat));
    } else {
        lemma_dec_roundtrip(n / 10);
        let s = dec_of(n);
        assert(s.drop_last() =~= dec_of(n / 10));
        assert(s.last() == (48 + n % 10) as u8);
        assert((48 + n % 10) as u8 == 48 + n % 10);
        assert(dec_val(s) == (n / 10) * 10 + n % 10);
        assert(n == (n / 10) * 10 + n % 10);
    }
}

/// Bound on the value named by a digit string of a given length.
pub proof fn lemma_dec_val_bound(s: Seq<u8>, bound: nat, cap: nat)
    requires
        s.len() <= bound,
        cap == vstd::arithmetic::power::pow(10, bound),
    ensures
        dec_val(s) < cap,
    decreases bound,
{
    vstd::arithmetic::power::lemma_pow_positive(10, bound);
    if s.len() == 0 {
        vstd::arithmetic::power::lemma_pow_positive(10, bound);
        assert(dec_val(s) == 0);
    } else {
        let sub = (bound - 1) as nat;
        vstd::arithmetic::power::lemma_pow_adds(10, sub, 1);
        reveal_with_fuel(vstd::arithmetic::power::pow, 2);
        assert(vstd::arithmetic::power::pow(10, 1) == 10);
        lemma_dec_val_bound(s.drop_last(), sub, vstd::arithmetic::power::pow(10, sub) as nat);
    }
}

/// Length bound for the decimal rendering: at most `digits` digits when the
/// value is below `10^digits`.
pub proof fn lemma_dec_of_len(n: nat, digits: nat)
    requires
        digits >= 1,
        n < vstd::arithmetic::power::pow(10, digits),
    ensures
        dec_of(n).len() <= digits,
    decreases digits,
{
    if n >= 10 {
        let sub = (digits - 1) as nat;
        vstd::arithmetic::power::lemma_pow_adds(10, sub, 1);
        reveal_with_fuel(vstd::arithmetic::power::pow, 2);
        assert(vstd::arithmetic::power::pow(10, 1) == 10);
        assert(n / 10 < vstd::arithmetic::power::pow(10, sub));
        if sub == 0 {
            assert(false);
        }
        lemma_dec_of_len(n / 10, sub);
    }
}

/// Renders `n` in decimal, most significant digit first.
pub fn u64_to_dec(n: u64) -> (r: Vec<u8>)
    ensures
        r@ == dec_of(n as nat),
    decreases n,
{
    if n < 10 {
        let mut v: Vec<u8> = Vec::new();
        v.push(48 + n as u8);
        assert(v@ =~= dec_of(n as nat));
        v
    } else {
        let mut v = u64_to_dec(n / 10);
        v.push(48 + (n % 10) as u8);
        assert(v@ =~= dec_of(n as nat));
        v
    }
}

/// Renders a signed integer in decimal.
pub fn i64_to_dec(n: i64) -> (r: Vec<u8>)
    ensures
        r@ == dec_of_int(n as int),
{
    if n >= 0 {
        u64_to_dec(n as u64)
    } else {
        let m: u64 = if n == i64::MIN {
            9223372036854775808u64
        } else {
            (-n) as u64
        };
        assert(m == -(n as int));
        let mut v: Vec<u8> = Vec::new();
        v.push(45);
        let digits = u64_to_dec(m);
        let mut j: usize = 0;
        while j < digits.len()
            invariant
                0 <= j <= digits@.len(),
                v@ == seq![45u8] + digits@.subrange(0, j as int),
            decreases digits@.len() - j,
        {
            v.push(digits[j]);
            j += 1;
            assert(v@ =~= seq![45u8] + digits@.subrange(0, j as int));
        }
        assert(digits@.subrange(0, digits@.len() as int) =~= digits@);
        v
    }
}

/// Compares two byte vectors for equality.
pub fn bytes_eq(a: &[u8], b: &[u8]) -> (r: bool)
    ensures
        r == (a@ == b@),
{
    if a.len() != b.len() {
        assert(a@ != b@);
        return false;
    }
    let mut i: usize = 0;
    while i < a.len()
        invariant
            0 <= i <= a@.len(),
            a@.len() == b@.len(),
            forall|j: int| 0 <= j < i ==> a@[j] == b@[j],
        decreases a@.len() - i,
    {
        if a[i] != b[i] {
            assert(a@ != b@);
            return false;
        }
        i += 1;
    }
    proof {
        assert(a@ =~= b@);
    }
    true
}


/// A leading zero does not change the value of a digit string.
pub proof fn lemma_dec_val_strip_zero(s: Seq<u8>)
    requires
        s.len() >= 1,
        s[0] == 48,
    ensures
        dec_val(s.drop_first()) == dec_val(s),
    decreases s.len(),
{
    if s.len() == 1 {
        assert(s.drop_first() =~= Seq::<u8>::empty());
        assert(s.drop_last() =~= Seq::<u8>::empty());
    } else {
        lemma_dec_val_strip_zero(s.drop_last());
        assert(s.drop_first().drop_last() =~= s.drop_last().drop_first());
        assert(s.drop_first().last() == s.last());
    }
}

/// A digit string with a non-zero leading digit names at least `10^(len-1)`.
pub proof fn lemma_dec_val_min(s: Seq<u8>, low: nat)
    requires
        s.len() >= 1,
        forall|i: int| 0 <= i < s.len() ==> is_digit(#[trigger] s[i]),
        s[0] != 48,
        low == vstd::arithmetic::power::pow(10, (s.len() - 1) as nat),
    ensures
        dec_val(s) >= low,
    decreases s.len(),
{
    reveal_with_fuel(vstd::arithmetic::power::pow, 2);
    if s.len() == 1 {
        assert(s.drop_last() =~= Seq::<u8>::empty());
    } else {
        let pre = s.drop_last();
        vstd::arithmetic::power::lemma_pow_adds(10, (s.len() - 2) as nat, 1);
        assert(vstd::arithmetic::power::pow(10, 1) == 10);
        lemma_dec_val_min(pre, vstd::arithmetic::power::pow(10, (pre.len() - 1) as nat) as nat);
        assert(dec_val(s) == dec_val(pre) * 10 + (if is_digit(s.last()) {
            (s.last() - 48) as nat
        } else {
            0
        }));
        assert(dec_val(pre) * 10 >= vstd::arithmetic::power::pow(10, (pre.len() - 1) as nat)
            * 10) by (nonlinear_arith)
            requires
                dec_val(pre) >= vstd::arithmetic::power::pow(10, (pre.len() - 1) as nat),
        ;
    }
}

/// Concrete cap: a digit string of at most 19 digits names a value below
/// `10^19`.
pub proof fn lemma_dec_val_cap(s: Seq<u8>, bound: nat)
    requires
        bound == 19,
        s.len() <= 19,
    ensures
        dec_val(s) < 0x8AC7_2304_89E8_0000,
    decreases s.len(),
{
    lemma_pow10_19();
    lemma_dec_val_bound(s, 19, vstd::arithmetic::power::pow(10, 19) as nat);
}

/// `10^19` as a concrete number.
pub proof fn lemma_pow10_19()
    ensures
        vstd::arithmetic::power::pow(10, 19) == 0x8AC7_2304_89E8_0000,
{
    reveal_with_fuel(vstd::arithmetic::power::pow, 20);
}

} // verus!
