//! Payload values: a JSON-like scalar carried exactly.
//!
//! A numeric value is held as its canonical decimal token, so that equality,
//! ordering and the storage codec are exact and free of rounding. Strings,
//! booleans and null round the model out.

use vstd::prelude::*;
use vstd::string::StringSliceAdditionalSpecFns;
use vstd::string::StrSliceExecFns;
use vstd::string::StringExecFns;
use crate::bytes::{dec_of, dec_of_int, dec_val, is_digit, lemma_dec_of_digits, lemma_dec_roundtrip};

verus! {

/// Byte that may appear in a numeric token: a digit, a minus sign or a
/// decimal point.
pub open spec fn is_num_byte(b: u8) -> bool {
    b == 45 || b == 46 || is_digit(b)
}

/// Well-formed numeric token: an optional minus sign, digits, and an
/// optional decimal point with digits after it — exactly the shape the
/// decimal comparison covers, so every stored number satisfies numeric
/// filters. Exponent notation is rejected at construction.
pub open spec fn num_token_ok(t: Seq<u8>) -> bool {
    num_shape(t) is Some
}

/// A payload scalar.
#[derive(Debug, Clone)]
pub enum Value {
    /// JSON null.
    Null,
    /// JSON boolean.
    Bool(bool),
    /// JSON number, held as its decimal token in ASCII bytes.
    Num(Vec<u8>),
    /// JSON string.
    Str(String),
}

/// The mathematical shape of a payload scalar.
pub enum SpecValue {
    /// JSON null.
    Null,
    /// JSON boolean.
    Bool(bool),
    /// JSON number as its decimal token.
    Num(Seq<u8>),
    /// JSON string as its character sequence.
    Str(Seq<char>),
}

/// View of a scalar.
pub open spec fn vview(v: Value) -> SpecValue {
    match v {
        Value::Null => SpecValue::Null,
        Value::Bool(b) => SpecValue::Bool(b),
        Value::Num(t) => SpecValue::Num(t@),
        Value::Str(s) => SpecValue::Str(s@),
    }
}

/// Well-formedness of a scalar: its numeric token, if any, is well formed.
pub open spec fn sv_wf(sv: SpecValue) -> bool {
    match sv {
        SpecValue::Num(t) => num_token_ok(t),
        _ => true,
    }
}

/// The integer a purely integral token names, if it fits a 64-bit signed
/// integer: an optional minus sign followed by digits only.
pub open spec fn token_as_int(t: Seq<u8>) -> Option<i64> {
    if t.len() >= 2 && t[0] == 45 {
        if (forall|i: int| 1 <= i < t.len() ==> is_digit(#[trigger] t[i])) && dec_val(
            t.subrange(1, t.len() as int),
        ) <= 0x8000_0000_0000_0000 {
            Some((-(dec_val(t.subrange(1, t.len() as int)) as int)) as i64)
        } else {
            None
        }
    } else if t.len() >= 1 && t[0] != 45 && (forall|i: int|
        0 <= i < t.len() ==> is_digit(#[trigger] t[i])) && dec_val(t) <= 0x7FFF_FFFF_FFFF_FFFF {
        Some(dec_val(t) as i64)
    } else {
        None
    }
}

impl Value {
    /// The boolean scalar.
    pub fn from_bool(b: bool) -> (r: Value)
        ensures
            vview(r) == SpecValue::Bool(b),
            sv_wf(vview(r)),
    {
        Value::Bool(b)
    }

    /// The integer scalar, rendered as its decimal token.
    pub fn from_i64(n: i64) -> (r: Value)
        ensures
            vview(r) == SpecValue::Num(dec_of_int(n as int)),
            sv_wf(vview(r)),
    {
        let t = crate::bytes::i64_to_dec(n);
        proof {
            if n >= 0 {
                lemma_dec_of_digits(n as nat);
                lemma_digits_token(t@, 0);
            } else {
                lemma_dec_of_digits((-(n as int)) as nat);
                lemma_digits_token(t@, 1);
            }
        }
        Value::Num(t)
    }

    /// The unsigned integer scalar, rendered as its decimal token.
    pub fn from_u64(n: u64) -> (r: Value)
        ensures
            vview(r) == SpecValue::Num(dec_of(n as nat)),
            sv_wf(vview(r)),
    {
        let t = crate::bytes::u64_to_dec(n);
        proof {
            lemma_dec_of_digits(n as nat);
            lemma_digits_token(t@, 0);
        }
        Value::Num(t)
    }

    /// The string scalar.
    pub fn from_text(s: &str) -> (r: Value)
        ensures
            vview(r) == SpecValue::Str(s@),
            sv_wf(vview(r)),
    {
        Value::Str(s.to_owned())
    }

    /// A numeric scalar from its decimal token; rejected unless the token is
    /// well formed.
    pub fn from_number_token(s: &str) -> (r: Option<Value>)
        ensures
            match r {
                Some(v) => vview(v) == SpecValue::Num(s.spec_bytes()) && num_token_ok(
                    s.spec_bytes(),
                ),
                None => !num_token_ok(s.spec_bytes()),
            },
    {
        let b = s.as_bytes_vec();
        if scan_shape(b.as_slice()).is_some() {
            Some(Value::Num(b))
        } else {
            None
        }
    }

    /// The token of a numeric scalar.
    pub fn num_token(&self) -> (r: Option<&Vec<u8>>)
        ensures
            match r {
                Some(t) => vview(*self) == SpecValue::Num(t@),
                None => !(vview(*self) is Num),
            },
    {
        match self {
            Value::Num(t) => Some(t),
            _ => None,
        }
    }

    /// The character content of a string scalar.
    pub fn as_text(&self) -> (r: Option<&str>)
        ensures
            match r {
                Some(s) => vview(*self) == SpecValue::Str(s@),
                None => !(vview(*self) is Str),
            },
    {
        match self {
            Value::Str(s) => Some(s.as_str()),
            _ => None,
        }
    }

    /// The boolean of a boolean scalar.
    pub fn as_bool(&self) -> (r: Option<bool>)
        ensures
            match r {
                Some(b) => vview(*self) == SpecValue::Bool(b),
                None => !(vview(*self) is Bool),
            },
    {
        match self {
            Value::Bool(b) => Some(*b),
            _ => None,
        }
    }

    /// Whether the scalar is null.
    pub fn is_null(&self) -> (r: bool)
        ensures
            r == (vview(*self) is Null),
    {
        match self {
            Value::Null => true,
            _ => false,
        }
    }

    /// The integer named by an integral numeric token, if it fits.
    pub fn as_i64(&self) -> (r: Option<i64>)
        ensures
            match vview(*self) {
                SpecValue::Num(t) => r == token_as_int(t),
                _ => r is None,
            },
    {
        let t = match self {
            Value::Num(t) => t,
            _ => { return None; },
        };
        if t.len() >= 2 && t[0] == 45 {
            match parse_digits_u64(t, 1) {
                Some(m) => {
                    if m <= 0x8000_0000_0000_0000 {
                        proof {
                            assert(forall|i: int| 1 <= i < t@.len() ==> is_digit(#[trigger] t@[i]));
                            assert(token_as_int(t@) == Some((-(m as int)) as i64));
                        }
                        if m == 0x8000_0000_0000_0000 {
                            proof {
                                assert((-(m as int)) as i64 == i64::MIN);
                            }
                            Some(i64::MIN)
                        } else {
                            Some(-(m as i64))
                        }
                    } else {
                        proof {
                            assert(token_as_int(t@) is None);
                        }
                        None
                    }
                },
                None => {
                    proof {
                        assert(token_as_int(t@) is None);
                    }
                    None
                },
            }
        } else if t.len() >= 1 && t[0] == 45 {
            proof {
                assert(token_as_int(t@) is None);
            }
            None
        } else {
            match parse_digits_u64(t, 0) {
                Some(m) => {
                    if m <= 0x7FFF_FFFF_FFFF_FFFF {
                        proof {
                            assert(t@.subrange(0, t@.len() as int) =~= t@);
                            assert(token_as_int(t@) == Some(m as i64));
                        }
                        Some(m as i64)
                    } else {
                        proof {
                            assert(t@.subrange(0, t@.len() as int) =~= t@);
                            assert(token_as_int(t@) is None);
                        }
                        None
                    }
                },
                None => {
                    proof {
                        if t@.len() >= 1 {
                            assert(t@.subrange(0, t@.len() as int) =~= t@);
                        }
                        assert(token_as_int(t@) is None);
                    }
                    None
                },
            }
        }
    }

    /// A structurally equal copy.
    pub fn duplicate(&self) -> (r: Value)
        ensures
            vview(r) == vview(*self),
    {
        match self {
            Value::Null => Value::Null,
            Value::Bool(b) => Value::Bool(*b),
            Value::Num(t) => {
                let mut c: Vec<u8> = Vec::new();
                let mut i: usize = 0;
                while i < t.len()
                    invariant
                        0 <= i <= t@.len(),
                        c@ == t@.subrange(0, i as int),
                    decreases t@.len() - i,
                {
                    c.push(t[i]);
                    proof {
                        assert(c@ =~= t@.subrange(0, i + 1));
                    }
                    i += 1;
                }
                proof {
                    assert(c@ =~= t@);
                }
                Value::Num(c)
            },
            Value::Str(s) => Value::Str(s.clone()),
        }
    }

    /// Structural equality of two scalars.
    pub fn same(&self, other: &Value) -> (r: bool)
        ensures
            r == (vview(*self) == vview(*other)),
    {
        match self {
            Value::Null => match other {
                Value::Null => true,
                _ => false,
            },
            Value::Bool(a) => match other {
                Value::Bool(b) => *a == *b,
                _ => false,
            },
            Value::Num(a) => match other {
                Value::Num(b) => crate::bytes::bytes_eq(a.as_slice(), b.as_slice()),
                _ => false,
            },
            Value::Str(a) => match other {
                Value::Str(b) => *a == *b,
                _ => false,
            },
        }
    }
}

/// Parses the digits of `t` from `start` to its end as an unsigned value;
/// `None` when a byte is not a digit or the value does not fit 64 bits.
fn parse_digits_u64(t: &Vec<u8>, start: usize) -> (r: Option<u64>)
    requires
        start <= t@.len(),
    ensures
        ({
            match r {
                Some(m) => start < t@.len() && (forall|i: int|
                    start <= i < t@.len() ==> is_digit(#[trigger] t@[i])) && m == dec_val(
                    t@.subrange(start as int, t@.len() as int),
                ),
                None => !(start < t@.len() && (forall|i: int|
                    start <= i < t@.len() ==> is_digit(#[trigger] t@[i])) && dec_val(
                    t@.subrange(start as int, t@.len() as int),
                ) < 0x8AC7_2304_89E8_0000),
            }
        }),
{
    let n = t.len();
    if start >= n {
        return None;
    }
    // skip leading zeros; they do not change the value
    let mut z: usize = start;
    while z + 1 < n && t[z] == 48
        invariant
            start <= z < n,
            n == t@.len(),
            forall|j: int| start <= j < z ==> t@[j] == 48,
        decreases n - z,
    {
        z += 1;
    }
    proof {
        lemma_skip_zeros(t@, start as int, z as int);
    }
    if n - z > 19 {
        let ghost dz = t@.subrange(z as int, t@.len() as int);
        proof {
            if forall|i: int| start <= i < t@.len() ==> is_digit(#[trigger] t@[i]) {
                assert(forall|i: int| 0 <= i < dz.len() ==> is_digit(#[trigger] dz[i]));
                assert(dz[0] == t@[z as int]);
                assert(t@[z as int] != 48);
                vstd::arithmetic::power::lemma_pow_positive(10, (dz.len() - 1) as nat);
                crate::bytes::lemma_dec_val_min(
                    dz,
                    vstd::arithmetic::power::pow(10, (dz.len() - 1) as nat) as nat,
                );
                crate::bytes::lemma_pow10_19();
                if dz.len() - 1 > 19 {
                    vstd::arithmetic::power::lemma_pow_strictly_increases(
                        10,
                        19,
                        (dz.len() - 1) as nat,
                    );
                }
                lemma_skip_zeros(t@, start as int, z as int);
            }
        }
        return None;
    }
    let mut acc: u64 = 0;
    let mut i: usize = z;
    while i < n
        invariant
            start <= z <= i <= n,
            z < n,
            n == t@.len(),
            n - z <= 19,
            forall|j: int| start <= j < z ==> t@[j] == 48,
            forall|j: int| z <= j < i ==> is_digit(#[trigger] t@[j]),
            acc == dec_val(t@.subrange(z as int, i as int)),
            acc < 0x8AC7_2304_89E8_0000,
        decreases n - i,
    {
        let c = t[i];
        if !(48 <= c && c <= 57) {
            proof {
                assert(!is_digit(t@[i as int]));
                assert(start <= i < t@.len());
                assert(!(forall|j: int| start <= j < t@.len() ==> is_digit(#[trigger] t@[j])));
            }
            return None;
        }
        proof {
            let pre = t@.subrange(z as int, i as int);
            let nxt = t@.subrange(z as int, i + 1);
            assert(nxt.drop_last() =~= pre);
            assert(nxt.last() == t@[i as int]);
            crate::bytes::lemma_dec_val_cap(t@.subrange(z as int, i + 1), 19);
        }
        acc = acc * 10 + ((c - 48) as u64);
        i += 1;
    }
    proof {
        assert(t@.subrange(z as int, n as int) =~= t@.subrange(z as int, i as int));
        assert(forall|j: int| start <= j < z ==> is_digit(#[trigger] t@[j]));
        lemma_skip_zeros(t@, start as int, z as int);
    }
    Some(acc)
}

/// Skipping a prefix of zero digits keeps the value and the all-digits
/// property of the rest.
proof fn lemma_skip_zeros(t: Seq<u8>, start: int, z: int)
    requires
        0 <= start <= z < t.len(),
        forall|j: int| start <= j < z ==> t[j] == 48,
    ensures
        dec_val(t.subrange(z, t.len() as int)) == dec_val(t.subrange(start, t.len() as int)),
    decreases z - start,
{
    if z > start {
        let s0 = t.subrange(start, t.len() as int);
        assert(s0[0] == 48);
        crate::bytes::lemma_dec_val_strip_zero(s0);
        assert(s0.drop_first() =~= t.subrange(start + 1, t.len() as int));
        lemma_skip_zeros(t, start + 1, z);
    }
}

// --- exact decimal comparison ---
//
// Numeric filter conditions compare tokens as exact decimals. A token is
// comparable when it has the shape `[-]digits[.digits]`; scientific notation
// is not compared. The order is decided on normalized digit strings: integer
// parts are stripped of leading zeros and compared by length and then
// lexicographically, and fractional parts are compared digit by digit with
// zero padding, which is exactly the decimal order.

/// First index at or after `i` holding a dot byte, or the length when none
/// does.
pub open spec fn find_dot(s: Seq<u8>, i: int) -> int
    decreases s.len() - i,
{
    if i < 0 || i >= s.len() {
        s.len() as int
    } else if s[i] == 46 {
        i
    } else {
        find_dot(s, i + 1)
    }
}

/// Whether every byte of `t` in `[lo, hi)` is a digit.
pub open spec fn digits_in(t: Seq<u8>, lo: int, hi: int) -> bool {
    forall|k: int| lo <= k < hi ==> is_digit(#[trigger] t[k])
}

/// The comparable shape of a token: sign, integer digits, fraction digits.
/// A token is comparable when it reads `[-]digits[.digits]`.
pub open spec fn num_shape(t: Seq<u8>) -> Option<(bool, Seq<u8>, Seq<u8>)> {
    let neg = t.len() >= 1 && t[0] == 45;
    let off: int = if neg {
        1
    } else {
        0
    };
    let p = find_dot(t, off);
    if p == t.len() {
        if t.len() > off && digits_in(t, off, t.len() as int) {
            Some((neg, t.subrange(off, t.len() as int), Seq::empty()))
        } else {
            None
        }
    } else {
        if p > off && p + 1 < t.len() && digits_in(t, off, p) && digits_in(
            t,
            p + 1,
            t.len() as int,
        ) {
            Some((neg, t.subrange(off, p), t.subrange(p + 1, t.len() as int)))
        } else {
            None
        }
    }
}

/// Digit string with leading zeros removed.
pub open spec fn strip_zeros(s: Seq<u8>) -> Seq<u8>
    decreases s.len(),
{
    if s.len() >= 1 && s[0] == 48 {
        strip_zeros(s.drop_first())
    } else {
        s
    }
}

/// Three-way lexicographic comparison of equal-length digit strings.
pub open spec fn lex_cmp(a: Seq<u8>, b: Seq<u8>) -> int
    decreases a.len(),
{
    if a.len() == 0 || b.len() == 0 {
        0
    } else if a[0] < b[0] {
        -1
    } else if a[0] > b[0] {
        1
    } else {
        lex_cmp(a.drop_first(), b.drop_first())
    }
}

/// Three-way comparison of integer-part digit strings by value: after
/// stripping leading zeros, a longer string names a larger value, and equal
/// lengths compare lexicographically.
pub open spec fn int_mag_cmp(a: Seq<u8>, b: Seq<u8>) -> int {
    let sa = strip_zeros(a);
    let sb = strip_zeros(b);
    if sa.len() < sb.len() {
        -1
    } else if sa.len() > sb.len() {
        1
    } else {
        lex_cmp(sa, sb)
    }
}

/// Three-way comparison of fraction digit strings, digit by digit with zero
/// padding.
pub open spec fn frac_cmp(a: Seq<u8>, b: Seq<u8>) -> int
    decreases a.len() + b.len(),
{
    if a.len() == 0 && b.len() == 0 {
        0
    } else {
        let da = if a.len() >= 1 {
            a[0]
        } else {
            48
        };
        let db = if b.len() >= 1 {
            b[0]
        } else {
            48
        };
        if da < db {
            -1
        } else if da > db {
            1
        } else {
            frac_cmp(
                if a.len() >= 1 {
                    a.drop_first()
                } else {
                    a
                },
                if b.len() >= 1 {
                    b.drop_first()
                } else {
                    b
                },
            )
        }
    }
}

/// Magnitude comparison of two shaped decimals.
pub open spec fn mag_cmp(ia: Seq<u8>, fa: Seq<u8>, ib: Seq<u8>, fb: Seq<u8>) -> int {
    let c = int_mag_cmp(ia, ib);
    if c != 0 {
        c
    } else {
        frac_cmp(fa, fb)
    }
}

/// Whether a shaped decimal is zero.
pub open spec fn shape_is_zero(ip: Seq<u8>, fp: Seq<u8>) -> bool {
    strip_zeros(ip).len() == 0 && frac_cmp(fp, Seq::empty()) == 0
}

/// Three-way exact comparison of two comparable tokens; `None` when either
/// token is not of comparable shape.
pub open spec fn num_cmp(a: Seq<u8>, b: Seq<u8>) -> Option<int> {
    match (num_shape(a), num_shape(b)) {
        (Some((na, ia, fa)), Some((nb, ib, fb))) => {
            let za = shape_is_zero(ia, fa);
            let zb = shape_is_zero(ib, fb);
            let sa: int = if za {
                0
            } else if na {
                -1
            } else {
                1
            };
            let sb: int = if zb {
                0
            } else if nb {
                -1
            } else {
                1
            };
            if sa < sb {
                Some(-1)
            } else if sa > sb {
                Some(1)
            } else if sa == 0 {
                Some(0)
            } else if sa == 1 {
                Some(mag_cmp(ia, fa, ib, fb))
            } else {
                Some(mag_cmp(ib, fb, ia, fa))
            }
        },
        _ => None,
    }
}

/// Executable shape scan: the sign and the index ranges of the integer and
/// fraction digits inside `t` ( `iend` is the dot position or the end;
/// fraction digits run from `iend + 1` when present).
fn scan_shape(t: &[u8]) -> (r: Option<(bool, usize, usize, bool)>)
    ensures
        ({
            match r {
                Some((neg, off, iend, has_frac)) => {
                    &&& num_shape(t@) == Some(
                        (
                            neg,
                            t@.subrange(off as int, iend as int),
                            if has_frac {
                                t@.subrange(iend + 1, t@.len() as int)
                            } else {
                                Seq::<u8>::empty()
                            },
                        ),
                    )
                    &&& off <= iend <= t@.len()
                    &&& (has_frac ==> iend + 1 <= t@.len())
                },
                None => num_shape(t@) is None,
            }
        }),
{
    let n = t.len();
    let neg = n >= 1 && t[0] == 45;
    let off: usize = if neg {
        1
    } else {
        0
    };
    // find the dot
    let mut i: usize = off;
    while i < n && t[i] != 46
        invariant
            off <= i <= n,
            n == t@.len(),
            forall|k: int| off <= k < i ==> t@[k] != 46,
            find_dot(t@, off as int) == find_dot(t@, i as int),
        decreases n - i,
    {
        i += 1;
    }
    let p = i;
    proof {
        if p == n {
            assert(find_dot(t@, p as int) == t@.len());
        } else {
            assert(t@[p as int] == 46);
            assert(find_dot(t@, p as int) == p);
        }
    }
    // digits of the integer part
    let mut j: usize = off;
    while j < p
        invariant
            off <= j <= p <= n,
            n == t@.len(),
            off == (if t@.len() >= 1 && t@[0] == 45 {
                1int
            } else {
                0int
            }),
            p == find_dot(t@, off as int),
            p == n || t@[p as int] == 46,
            forall|k: int| off <= k < j ==> is_digit(#[trigger] t@[k]),
        decreases p - j,
    {
        let c = t[j];
        if !(48 <= c && c <= 57) {
            proof {
                assert(!is_digit(t@[j as int]));
                assert(!digits_in(t@, off as int, p as int));
                assert(!digits_in(t@, off as int, n as int));
            }
            return None;
        }
        j += 1;
    }
    if p == off {
        return None;
    }
    if p == n {
        return Some((neg, off, p, false));
    }
    if p + 1 == n {
        return None;
    }
    // digits of the fraction part
    let mut k: usize = p + 1;
    while k < n
        invariant
            p + 1 <= k <= n,
            p < n,
            n == t@.len(),
            off <= p,
            off == (if t@.len() >= 1 && t@[0] == 45 {
                1int
            } else {
                0int
            }),
            p == find_dot(t@, off as int),
            forall|m: int| p + 1 <= m < k ==> is_digit(#[trigger] t@[m]),
        decreases n - k,
    {
        let c = t[k];
        if !(48 <= c && c <= 57) {
            proof {
                assert(!is_digit(t@[k as int]));
                assert(!digits_in(t@, p + 1, n as int));
            }
            return None;
        }
        k += 1;
    }
    Some((neg, off, p, true))
}

/// Executable comparison of two stretches of digit bytes as fractions with
/// zero padding.
fn frac_cmp_exec(a: &[u8], alo: usize, b: &[u8], blo: usize) -> (r: i32)
    requires
        alo <= a@.len(),
        blo <= b@.len(),
    ensures
        r == frac_cmp(a@.subrange(alo as int, a@.len() as int), b@.subrange(blo as int, b@.len() as int)),
        -1 <= r <= 1,
{
    let mut i: usize = alo;
    let mut j: usize = blo;
    let ghost fa = a@.subrange(alo as int, a@.len() as int);
    let ghost fb = b@.subrange(blo as int, b@.len() as int);
    while i < a.len() || j < b.len()
        invariant
            alo <= i <= a@.len(),
            blo <= j <= b@.len(),
            fa == a@.subrange(alo as int, a@.len() as int),
            fb == b@.subrange(blo as int, b@.len() as int),
            frac_cmp(a@.subrange(i as int, a@.len() as int), b@.subrange(j as int, b@.len() as int))
                == frac_cmp(fa, fb),
        decreases a@.len() + b@.len() - i - j,
    {
        let da: u8 = if i < a.len() {
            a[i]
        } else {
            48
        };
        let db: u8 = if j < b.len() {
            b[j]
        } else {
            48
        };
        proof {
            let sa = a@.subrange(i as int, a@.len() as int);
            let sb = b@.subrange(j as int, b@.len() as int);
            if sa.len() >= 1 {
                assert(sa.drop_first() =~= a@.subrange(i + 1, a@.len() as int));
            }
            if sb.len() >= 1 {
                assert(sb.drop_first() =~= b@.subrange(j + 1, b@.len() as int));
            }
        }
        if da < db {
            return -1;
        }
        if da > db {
            return 1;
        }
        if i < a.len() {
            i += 1;
        }
        if j < b.len() {
            j += 1;
        }
    }
    proof {
        assert(a@.subrange(i as int, a@.len() as int).len() == 0);
        assert(b@.subrange(j as int, b@.len() as int).len() == 0);
    }
    0
}

/// Executable comparison of two stretches of digit bytes as integer
/// magnitudes.
fn int_mag_cmp_exec(a: &[u8], alo: usize, ahi: usize, b: &[u8], blo: usize, bhi: usize) -> (r:
    i32)
    requires
        alo <= ahi <= a@.len(),
        blo <= bhi <= b@.len(),
    ensures
        r == int_mag_cmp(a@.subrange(alo as int, ahi as int), b@.subrange(blo as int, bhi as int)),
        -1 <= r <= 1,
{
    let ghost ia = a@.subrange(alo as int, ahi as int);
    let ghost ib = b@.subrange(blo as int, bhi as int);
    // strip leading zeros
    let mut i: usize = alo;
    while i < ahi && a[i] == 48
        invariant
            alo <= i <= ahi <= a@.len(),
            ia == a@.subrange(alo as int, ahi as int),
            strip_zeros(a@.subrange(i as int, ahi as int)) == strip_zeros(ia),
        decreases ahi - i,
    {
        proof {
            let cur = a@.subrange(i as int, ahi as int);
            assert(cur[0] == 48);
            assert(cur.drop_first() =~= a@.subrange(i + 1, ahi as int));
        }
        i += 1;
    }
    let mut j: usize = blo;
    while j < bhi && b[j] == 48
        invariant
            blo <= j <= bhi <= b@.len(),
            ib == b@.subrange(blo as int, bhi as int),
            strip_zeros(b@.subrange(j as int, bhi as int)) == strip_zeros(ib),
        decreases bhi - j,
    {
        proof {
            let cur = b@.subrange(j as int, bhi as int);
            assert(cur[0] == 48);
            assert(cur.drop_first() =~= b@.subrange(j + 1, bhi as int));
        }
        j += 1;
    }
    proof {
        let sa = a@.subrange(i as int, ahi as int);
        let sb = b@.subrange(j as int, bhi as int);
        if sa.len() >= 1 && sa[0] != 48 {
            assert(strip_zeros(sa) == sa);
        }
        if i == ahi {
            assert(sa.len() == 0);
            assert(strip_zeros(sa) == sa);
        }
        if sb.len() >= 1 && sb[0] != 48 {
            assert(strip_zeros(sb) == sb);
        }
        if j == bhi {
            assert(sb.len() == 0);
            assert(strip_zeros(sb) == sb);
        }
    }
    if ahi - i < bhi - j {
        return -1;
    }
    if ahi - i > bhi - j {
        return 1;
    }
    // equal stripped length: lexicographic
    let mut k: usize = 0;
    let len = ahi - i;
    while k < len
        invariant
            0 <= k <= len,
            len == ahi - i,
            len == bhi - j,
            alo <= i <= ahi <= a@.len(),
            blo <= j <= bhi <= b@.len(),
            strip_zeros(ia) == a@.subrange(i as int, ahi as int),
            strip_zeros(ib) == b@.subrange(j as int, bhi as int),
            ia == a@.subrange(alo as int, ahi as int),
            ib == b@.subrange(blo as int, bhi as int),
            lex_cmp(a@.subrange(i + k, ahi as int), b@.subrange(j + k, bhi as int)) == lex_cmp(
                strip_zeros(ia),
                strip_zeros(ib),
            ),
        decreases len - k,
    {
        let da = a[i + k];
        let db = b[j + k];
        proof {
            let sa = a@.subrange(i + k, ahi as int);
            let sb = b@.subrange(j + k, bhi as int);
            assert(sa[0] == a@[i + k] && sb[0] == b@[j + k]);
            assert(sa.drop_first() =~= a@.subrange(i + k + 1, ahi as int));
            assert(sb.drop_first() =~= b@.subrange(j + k + 1, bhi as int));
        }
        if da < db {
            return -1;
        }
        if da > db {
            return 1;
        }
        k += 1;
    }
    proof {
        assert(a@.subrange(i + len, ahi as int).len() == 0);
    }
    0
}

/// Executable three-way exact comparison of two numeric tokens; `None` when
/// either is not of comparable shape.
pub fn compare_tokens(a: &[u8], b: &[u8]) -> (r: Option<i32>)
    ensures
        match r {
            Some(c) => num_cmp(a@, b@) == Some(c as int) && -1 <= c <= 1,
            None => num_cmp(a@, b@) is None,
        },
{
    let sa = scan_shape(a);
    let sb = scan_shape(b);
    let (na, aoff, aiend, afrac) = match sa {
        Some(x) => x,
        None => { return None; },
    };
    let (nb, boff, biend, bfrac) = match sb {
        Some(x) => x,
        None => { return None; },
    };
    let alen = a.len();
    let blen = b.len();
    let alo_f: usize = if afrac {
        aiend + 1
    } else {
        alen
    };
    let blo_f: usize = if bfrac {
        biend + 1
    } else {
        blen
    };
    proof {
        if !afrac {
            assert(a@.subrange(a@.len() as int, a@.len() as int) =~= Seq::<u8>::empty());
        }
        if !bfrac {
            assert(b@.subrange(b@.len() as int, b@.len() as int) =~= Seq::<u8>::empty());
        }
    }
    // zero tests
    let za = int_mag_cmp_exec(a, aoff, aiend, a, aiend, aiend) == 0 && frac_cmp_exec(
        a,
        alo_f,
        a,
        a.len(),
    ) == 0;
    let zb = int_mag_cmp_exec(b, boff, biend, b, biend, biend) == 0 && frac_cmp_exec(
        b,
        blo_f,
        b,
        b.len(),
    ) == 0;
    proof {
        assert(a@.subrange(aiend as int, aiend as int) =~= Seq::<u8>::empty());
        assert(a@.subrange(a@.len() as int, a@.len() as int) =~= Seq::<u8>::empty());
        assert(b@.subrange(biend as int, biend as int) =~= Seq::<u8>::empty());
        assert(b@.subrange(b@.len() as int, b@.len() as int) =~= Seq::<u8>::empty());
        lemma_strip_empty_zero();
    }
    let ra: i32 = if za {
        0
    } else if na {
        -1
    } else {
        1
    };
    let rb: i32 = if zb {
        0
    } else if nb {
        -1
    } else {
        1
    };
    if ra < rb {
        Some(-1)
    } else if ra > rb {
        Some(1)
    } else if ra == 0 {
        Some(0)
    } else if ra == 1 {
        let c = int_mag_cmp_exec(a, aoff, aiend, b, boff, biend);
        if c != 0 {
            Some(c)
        } else {
            Some(frac_cmp_exec(a, alo_f, b, blo_f))
        }
    } else {
        let c = int_mag_cmp_exec(b, boff, biend, a, aoff, aiend);
        if c != 0 {
            Some(c)
        } else {
            Some(frac_cmp_exec(b, blo_f, a, alo_f))
        }
    }
}

/// An integer-magnitude comparison against the empty string decides whether
/// the stripped digits are empty.
proof fn lemma_strip_empty_zero()
    ensures
        forall|s: Seq<u8>| #[trigger] int_mag_cmp(s, Seq::<u8>::empty()) == 0 <==> strip_zeros(
            s,
        ).len() == 0,
{
    assert forall|s: Seq<u8>| #[trigger] int_mag_cmp(s, Seq::<u8>::empty()) == 0 <==> strip_zeros(
        s,
    ).len() == 0 by {
        assert(strip_zeros(Seq::<u8>::empty()) == Seq::<u8>::empty());
        if strip_zeros(s).len() == 0 {
            assert(lex_cmp(strip_zeros(s), strip_zeros(Seq::<u8>::empty())) == 0);
        }
    }
}


/// Whether the bytes form a well-formed numeric token, executable.
pub fn token_ok_check(t: &Vec<u8>) -> (r: bool)
    ensures
        r == num_token_ok(t@),
{
    scan_shape(t.as_slice()).is_some()
}

/// Every byte of a well-formed numeric token is a numeric byte, and the
/// token starts with a minus sign or a digit and is never a lone minus.
pub proof fn lemma_token_bytes(t: Seq<u8>)
    requires
        num_token_ok(t),
    ensures
        t.len() >= 1,
        forall|i: int| 0 <= i < t.len() ==> is_num_byte(#[trigger] t[i]),
        t[0] == 45 || is_digit(t[0]),
{
    let neg = t.len() >= 1 && t[0] == 45;
    let off: int = if neg {
        1
    } else {
        0
    };
    let p = find_dot(t, off);
    lemma_find_dot_bytes(t, off, p);
    assert forall|i: int| 0 <= i < t.len() implies is_num_byte(#[trigger] t[i]) by {
        if i == 0 && neg {
        } else if i == p && p < t.len() {
            assert(t[i] == 46);
        } else if i < p {
            assert(is_digit(t[i]));
        } else {
            assert(is_digit(t[i]));
        }
    }
}

/// A dot scan that ran to `p` saw no dot before it, and stopped on a dot or
/// at the end.
pub proof fn lemma_find_dot_bytes(t: Seq<u8>, i: int, p: int)
    requires
        0 <= i,
        p == find_dot(t, i),
    ensures
        i <= p <= t.len() || (i > t.len() && p == t.len()),
        forall|k: int| i <= k < p ==> #[trigger] t[k] != 46,
        p < t.len() ==> t[p] == 46,
    decreases t.len() - i,
{
    if 0 <= i < t.len() && t[i] != 46 {
        lemma_find_dot_bytes(t, i + 1, p);
    }
}

/// A digit string, with an optional minus sign in front, is a well-formed
/// numeric token.
pub proof fn lemma_digits_token(t: Seq<u8>, off: int)
    requires
        0 <= off <= 1,
        off == 1 ==> t.len() >= 1 && t[0] == 45,
        t.len() > off,
        forall|i: int| off <= i < t.len() ==> is_digit(#[trigger] t[i]),
    ensures
        num_token_ok(t),
{
    let p = find_dot(t, off);
    lemma_find_dot_no_dot(t, off);
    assert(p == t.len());
    assert(digits_in(t, off, t.len() as int));
}

/// A scan over digits finds no dot.
proof fn lemma_find_dot_no_dot(t: Seq<u8>, i: int)
    requires
        0 <= i,
        forall|k: int| i <= k < t.len() ==> is_digit(#[trigger] t[k]),
    ensures
        find_dot(t, i) == t.len(),
    decreases t.len() - i,
{
    if 0 <= i < t.len() {
        assert(t[i] != 46);
        lemma_find_dot_no_dot(t, i + 1);
    }
}

} // verus!
