//! Filter expressions over payload fields.
//!
//! A filter is a tree of field conditions combined with and, or and not. It
//! can be evaluated against a single payload here, or against a whole index
//! at once through the bitmap index.

use vstd::prelude::*;
use vstd::string::StrSliceExecFns;
use crate::value::{Value, SpecValue, vview, num_cmp};
use crate::payload::{Payload, plookup};

verus! {

/// A single condition or a boolean combination of conditions.
#[derive(Debug)]
pub enum FilterCondition {
    /// Field equals the value.
    Eq(String, Value),
    /// Field differs from the value, or is absent.
    Ne(String, Value),
    /// Field is numeric and greater than the numeric value.
    Gt(String, Value),
    /// Field is numeric and at least the numeric value.
    Gte(String, Value),
    /// Field is numeric and less than the numeric value.
    Lt(String, Value),
    /// Field is numeric and at most the numeric value.
    Lte(String, Value),
    /// Field equals one of the listed values.
    In(String, Vec<Value>),
    /// Field is a string containing the given byte substring.
    Contains(String, String),
    /// Field is present.
    Exists(String),
    /// Both conditions hold.
    And(Box<FilterCondition>, Box<FilterCondition>),
    /// At least one condition holds.
    Or(Box<FilterCondition>, Box<FilterCondition>),
    /// The condition does not hold.
    Not(Box<FilterCondition>),
}

/// Whether `sub` occurs contiguously inside `s`.
pub open spec fn has_substring(s: Seq<u8>, sub: Seq<u8>) -> bool {
    exists|k: int| 0 <= k <= s.len() - sub.len() && #[trigger] s.subrange(k, k + sub.len()) == sub
}

/// Numeric comparison of a payload value against an operand value: both must
/// be numbers, and the comparison is exact on their decimal tokens.
pub open spec fn num_matches(pv: SpecValue, ov: SpecValue, lo: int, hi: int) -> bool {
    match (pv, ov) {
        (SpecValue::Num(a), SpecValue::Num(b)) => match num_cmp(a, b) {
            Some(c) => lo <= c <= hi,
            None => false,
        },
        _ => false,
    }
}

/// What it means for a payload to satisfy a condition.
pub open spec fn cond_matches(c: FilterCondition, p: Seq<(Seq<char>, SpecValue)>) -> bool
    decreases c,
{
    match c {
        FilterCondition::Eq(f, v) => match plookup(p, f@) {
            Some(x) => x == vview(v),
            None => false,
        },
        FilterCondition::Ne(f, v) => match plookup(p, f@) {
            Some(x) => x != vview(v),
            None => true,
        },
        FilterCondition::Gt(f, v) => match plookup(p, f@) {
            Some(x) => num_matches(x, vview(v), 1, 1),
            None => false,
        },
        FilterCondition::Gte(f, v) => match plookup(p, f@) {
            Some(x) => num_matches(x, vview(v), 0, 1),
            None => false,
        },
        FilterCondition::Lt(f, v) => match plookup(p, f@) {
            Some(x) => num_matches(x, vview(v), -1, -1),
            None => false,
        },
        FilterCondition::Lte(f, v) => match plookup(p, f@) {
            Some(x) => num_matches(x, vview(v), -1, 0),
            None => false,
        },
        FilterCondition::In(f, vs) => match plookup(p, f@) {
            Some(x) => exists|i: int| 0 <= i < vs@.len() && vview(#[trigger] vs@[i]) == x,
            None => false,
        },
        FilterCondition::Contains(f, sub) => match plookup(p, f@) {
            Some(SpecValue::Str(s)) => has_substring(
                vstd::utf8::encode_utf8(s),
                vstd::utf8::encode_utf8(sub@),
            ),
            _ => false,
        },
        FilterCondition::Exists(f) => plookup(p, f@) is Some,
        FilterCondition::And(a, b) => cond_matches(*a, p) && cond_matches(*b, p),
        FilterCondition::Or(a, b) => cond_matches(*a, p) || cond_matches(*b, p),
        FilterCondition::Not(a) => !cond_matches(*a, p),
    }
}

/// Byte-level substring search.
pub fn contains_bytes(s: &[u8], sub: &[u8]) -> (r: bool)
    ensures
        r == has_substring(s@, sub@),
{
    let n = s.len();
    let m = sub.len();
    if m > n {
        proof {
            assert(!has_substring(s@, sub@));
        }
        return false;
    }
    let mut k: usize = 0;
    while k <= n - m
        invariant
            0 <= k <= n - m + 1,
            m <= n,
            n == s@.len(),
            m == sub@.len(),
            forall|a: int| 0 <= a < k ==> #[trigger] s@.subrange(a, a + sub@.len()) != sub@,
        decreases n - k,
    {
        let mut j: usize = 0;
        let mut hit = true;
        while j < m
            invariant
                0 <= j <= m,
                k + m <= n,
                n == s@.len(),
                m == sub@.len(),
                hit ==> (forall|a: int| 0 <= a < j ==> s@[k + a] == sub@[a]),
                !hit ==> j == m && (exists|a: int| 0 <= a < m && s@[k + a] != sub@[a]),
            decreases m - j,
        {
            if s[k + j] != sub[j] {
                hit = false;
                proof {
                    assert(s@[k + j] != sub@[j as int]);
                }
                j = m;
            } else {
                proof {
                    assert(forall|a: int| 0 <= a < j + 1 ==> s@[k + a] == sub@[a]);
                }
                j += 1;
            }
        }
        if hit {
            proof {
                assert(s@.subrange(k as int, k + sub@.len()) =~= sub@);
            }
            return true;
        }
        proof {
            if s@.subrange(k as int, k + sub@.len()) == sub@ {
                assert(forall|a: int|
                    0 <= a < m ==> #[trigger] s@.subrange(k as int, k + sub@.len())[a] == s@[k
                        + a]);
                let a = choose|a: int| 0 <= a < m && s@[k + a] != sub@[a];
                assert(s@.subrange(k as int, k + sub@.len())[a] == sub@[a]);
                assert(false);
            }
        }
        k += 1;
    }
    proof {
        assert(!has_substring(s@, sub@));
    }
    false
}

impl FilterCondition {
    /// Evaluates the condition against a payload.
    pub fn matches(&self, payload: &Payload) -> (r: bool)
        ensures
            r == cond_matches(*self, payload.view_fields()),
        decreases *self,
    {
        match self {
            FilterCondition::Eq(f, v) => match payload.get(f.as_str()) {
                Some(x) => x.same(v),
                None => false,
            },
            FilterCondition::Ne(f, v) => match payload.get(f.as_str()) {
                Some(x) => !x.same(v),
                None => true,
            },
            FilterCondition::Gt(f, v) => cmp_in_range(payload, f, v, 1, 1),
            FilterCondition::Gte(f, v) => cmp_in_range(payload, f, v, 0, 1),
            FilterCondition::Lt(f, v) => cmp_in_range(payload, f, v, -1, -1),
            FilterCondition::Lte(f, v) => cmp_in_range(payload, f, v, -1, 0),
            FilterCondition::In(f, vs) => match payload.get(f.as_str()) {
                Some(x) => {
                    let n = vs.len();
                    let mut i: usize = 0;
                    let mut found = false;
                    while i < n && !found
                        invariant
                            0 <= i <= n,
                            n == vs@.len(),
                            plookup(payload.view_fields(), f@) == Some(vview(*x)),
                            found ==> exists|a: int|
                                0 <= a < vs@.len() && vview(#[trigger] vs@[a]) == vview(*x),
                            !found ==> forall|a: int|
                                0 <= a < i ==> vview(#[trigger] vs@[a]) != vview(*x),
                        decreases n - i,
                    {
                        if x.same(&vs[i]) {
                            found = true;
                        }
                        i += 1;
                    }
                    found
                },
                None => false,
            },
            FilterCondition::Contains(f, sub) => match payload.get_str(f.as_str()) {
                Some(s) => {
                    let sb = s.as_bytes_vec();
                    let subb = sub.as_str().as_bytes_vec();
                    contains_bytes(sb.as_slice(), subb.as_slice())
                },
                None => false,
            },
            FilterCondition::Exists(f) => payload.contains_key(f.as_str()),
            FilterCondition::And(a, b) => a.matches(payload) && b.matches(payload),
            FilterCondition::Or(a, b) => a.matches(payload) || b.matches(payload),
            FilterCondition::Not(a) => !a.matches(payload),
        }
    }
}

/// Numeric comparison of the field value against the operand, exact on
/// decimal tokens, true when the three-way result lies in `[lo, hi]`.
fn cmp_in_range(payload: &Payload, f: &String, v: &Value, lo: i32, hi: i32) -> (r: bool)
    ensures
        r == match plookup(payload.view_fields(), f@) {
            Some(x) => num_matches(x, vview(*v), lo as int, hi as int),
            None => false,
        },
{
    let x = match payload.get(f.as_str()) {
        Some(x) => x,
        None => { return false; },
    };
    let tx = match x.num_token() {
        Some(t) => t,
        None => { return false; },
    };
    let tv = match v.num_token() {
        Some(t) => t,
        None => { return false; },
    };
    match crate::value::compare_tokens(tx.as_slice(), tv.as_slice()) {
        Some(c) => lo <= c && c <= hi,
        None => false,
    }
}

/// A filter expression.
#[derive(Debug)]
pub struct Filter {
    /// The root condition.
    pub condition: FilterCondition,
}

/// What it means for a payload to satisfy a filter.
pub open spec fn filter_matches(f: Filter, p: Seq<(Seq<char>, SpecValue)>) -> bool {
    cond_matches(f.condition, p)
}

impl Filter {
    /// Starts a condition on the named field.
    pub fn field(name: &str) -> (r: FieldFilter)
        ensures
            r.field_name@ == name@,
    {
        FieldFilter { field_name: name.to_owned() }
    }

    /// Wraps a condition as a filter.
    pub fn from_condition(condition: FilterCondition) -> (r: Filter)
        ensures
            r.condition == condition,
    {
        Filter { condition }
    }

    /// Both filters must hold.
    pub fn and(self, other: Filter) -> (r: Filter)
        ensures
            r.condition == FilterCondition::And(
                Box::new(self.condition),
                Box::new(other.condition),
            ),
    {
        Filter {
            condition: FilterCondition::And(Box::new(self.condition), Box::new(other.condition)),
        }
    }

    /// At least one filter must hold.
    pub fn or(self, other: Filter) -> (r: Filter)
        ensures
            r.condition == FilterCondition::Or(
                Box::new(self.condition),
                Box::new(other.condition),
            ),
    {
        Filter {
            condition: FilterCondition::Or(Box::new(self.condition), Box::new(other.condition)),
        }
    }

    /// The filter must not hold.
    pub fn negate(self) -> (r: Filter)
        ensures
            r.condition == FilterCondition::Not(Box::new(self.condition)),
    {
        Filter { condition: FilterCondition::Not(Box::new(self.condition)) }
    }

    /// Evaluates the filter against a payload.
    pub fn matches(&self, payload: &Payload) -> (r: bool)
        ensures
            r == filter_matches(*self, payload.view_fields()),
    {
        self.condition.matches(payload)
    }
}

/// Builder for conditions on one field.
#[derive(Debug)]
pub struct FieldFilter {
    /// The field the condition will test.
    pub field_name: String,
}

impl FieldFilter {
    /// Field equals the value.
    pub fn eq(self, value: Value) -> (r: Filter)
        ensures
            r.condition == FilterCondition::Eq(self.field_name, value),
    {
        Filter { condition: FilterCondition::Eq(self.field_name, value) }
    }

    /// Field differs from the value or is absent.
    pub fn ne(self, value: Value) -> (r: Filter)
        ensures
            r.condition == FilterCondition::Ne(self.field_name, value),
    {
        Filter { condition: FilterCondition::Ne(self.field_name, value) }
    }

    /// Field is numeric and greater than the value.
    pub fn gt(self, value: Value) -> (r: Filter)
        ensures
            r.condition == FilterCondition::Gt(self.field_name, value),
    {
        Filter { condition: FilterCondition::Gt(self.field_name, value) }
    }

    /// Field is numeric and at least the value.
    pub fn gte(self, value: Value) -> (r: Filter)
        ensures
            r.condition == FilterCondition::Gte(self.field_name, value),
    {
        Filter { condition: FilterCondition::Gte(self.field_name, value) }
    }

    /// Field is numeric and less than the value.
    pub fn lt(self, value: Value) -> (r: Filter)
        ensures
            r.condition == FilterCondition::Lt(self.field_name, value),
    {
        Filter { condition: FilterCondition::Lt(self.field_name, value) }
    }

    /// Field is numeric and at most the value.
    pub fn lte(self, value: Value) -> (r: Filter)
        ensures
            r.condition == FilterCondition::Lte(self.field_name, value),
    {
        Filter { condition: FilterCondition::Lte(self.field_name, value) }
    }

    /// Field equals one of the listed values.
    pub fn contained_in(self, values: Vec<Value>) -> (r: Filter)
        ensures
            r.condition == FilterCondition::In(self.field_name, values),
    {
        Filter { condition: FilterCondition::In(self.field_name, values) }
    }

    /// Field is a string containing the substring.
    pub fn contains(self, substring: &str) -> (r: Filter)
        ensures
            r.condition matches FilterCondition::Contains(f, s) && f == self.field_name && s@
                == substring@,
    {
        Filter { condition: FilterCondition::Contains(self.field_name, substring.to_owned()) }
    }

    /// Field is present.
    pub fn present(self) -> (r: Filter)
        ensures
            r.condition == FilterCondition::Exists(self.field_name),
    {
        Filter { condition: FilterCondition::Exists(self.field_name) }
    }
}

} // verus!
