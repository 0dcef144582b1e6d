//! Payload: the named scalar fields attached to a stored vector.

use vstd::prelude::*;
use vstd::string::StringExecFns;
use crate::value::{Value, SpecValue, vview, sv_wf};
use crate::json::{fields_view, jser_obj, jparse_obj, ser_obj, parse_obj_exec};

verus! {

/// Field names are unique in a well-formed field list.
pub open spec fn keys_unique(fs: Seq<(Seq<char>, SpecValue)>) -> bool {
    forall|i: int, j: int| 0 <= i < j < fs.len() ==> (#[trigger] fs[i]).0 != (#[trigger] fs[j]).0
}

/// The value under a key: the first binding that carries it.
pub open spec fn plookup(fs: Seq<(Seq<char>, SpecValue)>, k: Seq<char>) -> Option<SpecValue>
    decreases fs.len(),
{
    if fs.len() == 0 {
        None
    } else if fs[0].0 == k {
        Some(fs[0].1)
    } else {
        plookup(fs.drop_first(), k)
    }
}

/// The field list after binding `k` to `v`: replaced in place when present,
/// appended otherwise.
pub open spec fn pset(fs: Seq<(Seq<char>, SpecValue)>, k: Seq<char>, v: SpecValue) -> Seq<
    (Seq<char>, SpecValue),
>
    decreases fs.len(),
{
    if fs.len() == 0 {
        seq![(k, v)]
    } else if fs[0].0 == k {
        seq![(k, v)] + fs.drop_first()
    } else {
        seq![fs[0]] + pset(fs.drop_first(), k, v)
    }
}

/// The field list with the binding of `k` removed.
pub open spec fn premove(fs: Seq<(Seq<char>, SpecValue)>, k: Seq<char>) -> Seq<
    (Seq<char>, SpecValue),
>
    decreases fs.len(),
{
    if fs.len() == 0 {
        fs
    } else if fs[0].0 == k {
        fs.drop_first()
    } else {
        seq![fs[0]] + premove(fs.drop_first(), k)
    }
}

/// Whether every value of the list is well formed.
pub open spec fn values_wf(fs: Seq<(Seq<char>, SpecValue)>) -> bool {
    forall|i: int| 0 <= i < fs.len() ==> sv_wf((#[trigger] fs[i]).1)
}

/// Named scalar fields attached to a vector. Field order is not observable
/// through lookups; names are unique.
#[derive(Debug)]
pub struct Payload {
    fields: Vec<(String, Value)>,
}

impl Payload {
    /// View: the field list as name and value shapes, in storage order.
    pub closed spec fn view_fields(&self) -> Seq<(Seq<char>, SpecValue)> {
        fields_view(self.fields@)
    }

    /// Well-formed payload: unique names, well-formed values.
    pub open spec fn wf(&self) -> bool {
        keys_unique(self.view_fields()) && values_wf(self.view_fields())
    }

    /// The empty payload.
    pub fn new() -> (r: Payload)
        ensures
            r.view_fields() == Seq::<(Seq<char>, SpecValue)>::empty(),
            r.wf(),
    {
        let r = Payload { fields: Vec::new() };
        proof {
            assert(r.view_fields() =~= Seq::<(Seq<char>, SpecValue)>::empty());
        }
        r
    }

    /// A payload from a field list; names must be unique and values well
    /// formed.
    pub fn from_fields(fields: Vec<(String, Value)>) -> (r: Option<Payload>)
        ensures
            match r {
                Some(p) => p.view_fields() == fields_view(fields@) && p.wf(),
                None => !(keys_unique(fields_view(fields@)) && values_wf(fields_view(fields@))),
            },
    {
        let n = fields.len();
        let mut i: usize = 0;
        while i < n
            invariant
                0 <= i <= n,
                n == fields@.len(),
                forall|a: int, b: int|
                    0 <= a < b < fields@.len() && b < i ==> (#[trigger] fields_view(fields@)[a]).0
                        != (#[trigger] fields_view(fields@)[b]).0,
                forall|a: int| 0 <= a < i ==> sv_wf((#[trigger] fields_view(fields@)[a]).1),
            decreases n - i,
        {
            match &fields[i].1 {
                Value::Num(t) => {
                    if !crate::value::token_ok_check(t) {
                        proof {
                            assert(fields_view(fields@)[i as int].1 == vview(fields@[i as int].1));
                            assert(!sv_wf(fields_view(fields@)[i as int].1));
                        }
                        return None;
                    }
                },
                _ => {},
            }
            let mut j: usize = 0;
            while j < i
                invariant
                    0 <= j <= i < n,
                    n == fields@.len(),
                    forall|a: int|
                        0 <= a < j ==> (#[trigger] fields_view(fields@)[a]).0 != fields_view(
                            fields@,
                        )[i as int].0,
                decreases i - j,
            {
                if fields[j].0 == fields[i].0 {
                    proof {
                        assert(fields_view(fields@)[j as int].0 == fields_view(
                            fields@,
                        )[i as int].0);
                        assert(!keys_unique(fields_view(fields@)));
                    }
                    return None;
                }
                j += 1;
            }
            i += 1;
        }
        Some(Payload { fields })
    }

    /// Binds `key` to `value`, replacing any existing binding.
    pub fn set(&mut self, key: &str, value: Value)
        requires
            old(self).wf(),
            sv_wf(vview(value)),
        ensures
            final(self).view_fields() == pset(old(self).view_fields(), key@, vview(value)),
            final(self).wf(),
    {
        let ks = key.to_owned();
        let n = self.fields.len();
        let mut i: usize = 0;
        while i < n
            invariant
                0 <= i <= n,
                n == self.fields@.len(),
                ks@ == key@,
                *self == *old(self),
                old(self).wf(),
                sv_wf(vview(value)),
                forall|a: int| 0 <= a < i ==> (#[trigger] self.view_fields()[a]).0 != key@,
            decreases n - i,
        {
            if self.fields[i].0 == ks {
                proof {
                    assert(self.view_fields()[i as int].0 == key@);
                }
                self.fields[i] = (key.to_owned(), value);
                proof {
                    lemma_pset_at(old(self).view_fields(), key@, vview(value), i as int);
                    assert(self.view_fields() =~= old(self).view_fields().update(
                        i as int,
                        (key@, vview(value)),
                    ));
                    lemma_pset_wf(old(self).view_fields(), key@, vview(value));
                }
                return;
            }
            i += 1;
        }
        self.fields.push((key.to_owned(), value));
        proof {
            lemma_pset_append(old(self).view_fields(), key@, vview(value));
            assert(self.view_fields() =~= old(self).view_fields() + seq![(key@, vview(value))]);
            lemma_pset_wf(old(self).view_fields(), key@, vview(value));
        }
    }

    /// Binds `key` to `value` and hands the payload back, for chaining.
    pub fn with_field(self, key: &str, value: Value) -> (r: Payload)
        requires
            self.wf(),
            sv_wf(vview(value)),
        ensures
            r.view_fields() == pset(self.view_fields(), key@, vview(value)),
            r.wf(),
    {
        let mut p = self;
        p.set(key, value);
        p
    }

    /// The value bound to `key`.
    pub fn get(&self, key: &str) -> (r: Option<&Value>)
        ensures
            match r {
                Some(v) => plookup(self.view_fields(), key@) == Some(vview(*v)),
                None => plookup(self.view_fields(), key@) is None,
            },
    {
        let ks = key.to_owned();
        let n = self.fields.len();
        let mut i: usize = 0;
        proof {
            assert(self.view_fields().skip(0) =~= self.view_fields());
        }
        while i < n
            invariant
                0 <= i <= n,
                n == self.fields@.len(),
                ks@ == key@,
                plookup(self.view_fields(), key@) == plookup(
                    self.view_fields().skip(i as int),
                    key@,
                ),
            decreases n - i,
        {
            proof {
                assert(self.view_fields().skip(i as int)[0] == self.view_fields()[i as int]);
                assert(self.view_fields().skip(i as int).drop_first() =~= self.view_fields().skip(
                    i + 1,
                ));
            }
            if self.fields[i].0 == ks {
                return Some(&self.fields[i].1);
            }
            i += 1;
        }
        proof {
            assert(self.view_fields().skip(n as int).len() == 0);
        }
        None
    }

    /// The string bound to `key`, when it is a string.
    pub fn get_str(&self, key: &str) -> (r: Option<&str>)
        ensures
            match r {
                Some(s) => plookup(self.view_fields(), key@) == Some(SpecValue::Str(s@)),
                None => !(plookup(self.view_fields(), key@) matches Some(SpecValue::Str(_))),
            },
    {
        match self.get(key) {
            Some(v) => v.as_text(),
            None => None,
        }
    }

    /// The integer bound to `key`, when it is an integral number that fits.
    pub fn get_i64(&self, key: &str) -> (r: Option<i64>)
        ensures
            match plookup(self.view_fields(), key@) {
                Some(SpecValue::Num(t)) => r == crate::value::token_as_int(t),
                _ => r is None,
            },
    {
        match self.get(key) {
            Some(v) => v.as_i64(),
            None => None,
        }
    }

    /// The boolean bound to `key`, when it is a boolean.
    pub fn get_bool(&self, key: &str) -> (r: Option<bool>)
        ensures
            match r {
                Some(b) => plookup(self.view_fields(), key@) == Some(SpecValue::Bool(b)),
                None => !(plookup(self.view_fields(), key@) matches Some(SpecValue::Bool(_))),
            },
    {
        match self.get(key) {
            Some(v) => v.as_bool(),
            None => None,
        }
    }

    /// The numeric token bound to `key`, when it is a number.
    pub fn get_num(&self, key: &str) -> (r: Option<&Vec<u8>>)
        ensures
            match r {
                Some(t) => plookup(self.view_fields(), key@) == Some(SpecValue::Num(t@)),
                None => !(plookup(self.view_fields(), key@) matches Some(SpecValue::Num(_))),
            },
    {
        match self.get(key) {
            Some(v) => v.num_token(),
            None => None,
        }
    }

    /// Removes the binding of `key` and returns its value.
    pub fn remove(&mut self, key: &str) -> (r: Option<Value>)
        requires
            old(self).wf(),
        ensures
            final(self).view_fields() == premove(old(self).view_fields(), key@),
            final(self).wf(),
            match r {
                Some(v) => plookup(old(self).view_fields(), key@) == Some(vview(v)),
                None => plookup(old(self).view_fields(), key@) is None,
            },
    {
        let ks = key.to_owned();
        let n = self.fields.len();
        let mut i: usize = 0;
        while i < n
            invariant
                0 <= i <= n,
                n == self.fields@.len(),
                ks@ == key@,
                *self == *old(self),
                old(self).wf(),
                forall|a: int| 0 <= a < i ==> (#[trigger] self.view_fields()[a]).0 != key@,
            decreases n - i,
        {
            if self.fields[i].0 == ks {
                proof {
                    assert(self.view_fields()[i as int].0 == key@);
                }
                let pair = self.fields.remove(i);
                proof {
                    lemma_premove_at(old(self).view_fields(), key@, i as int);
                    assert(self.view_fields() =~= old(self).view_fields().remove(i as int));
                    lemma_premove_wf(old(self).view_fields(), key@);
                    lemma_plookup_at(old(self).view_fields(), key@, i as int);
                }
                return Some(pair.1);
            }
            i += 1;
        }
        proof {
            lemma_premove_absent(self.view_fields(), key@);
            lemma_plookup_absent(self.view_fields(), key@);
        }
        None
    }

    /// Whether `key` is bound.
    pub fn contains_key(&self, key: &str) -> (r: bool)
        ensures
            r == (plookup(self.view_fields(), key@) is Some),
    {
        match self.get(key) {
            Some(_) => true,
            None => false,
        }
    }

    /// Number of fields.
    pub fn len(&self) -> (r: usize)
        ensures
            r == self.view_fields().len(),
    {
        self.fields.len()
    }

    /// Whether the payload has no fields.
    pub fn is_empty(&self) -> (r: bool)
        ensures
            r == (self.view_fields().len() == 0),
    {
        self.fields.len() == 0
    }

    /// The fields in storage order.
    pub fn items(&self) -> (r: &Vec<(String, Value)>)
        ensures
            fields_view(r@) == self.view_fields(),
    {
        &self.fields
    }

    /// A field-for-field copy.
    pub fn duplicate(&self) -> (r: Payload)
        ensures
            r.view_fields() == self.view_fields(),
    {
        let n = self.fields.len();
        let mut fields: Vec<(String, Value)> = Vec::new();
        let mut i: usize = 0;
        while i < n
            invariant
                0 <= i <= n,
                n == self.fields@.len(),
                fields_view(fields@) == fields_view(self.fields@).subrange(0, i as int),
            decreases n - i,
        {
            let k = self.fields[i].0.clone();
            let v = self.fields[i].1.duplicate();
            let ghost prev = fields@;
            fields.push((k, v));
            proof {
                assert(fields_view(prev).len() == i);
                assert(prev.len() == i);
                assert(fields@ =~= prev + seq![(k, v)]);
                assert(fields@[i as int] == (k, v));
                assert(fields_view(fields@)[i as int] == (k@, vview(v)));
                assert(k@ == self.fields@[i as int].0@);
                assert(vview(v) == vview(self.fields@[i as int].1));
                assert(forall|m: int| 0 <= m < i ==> fields@[m] == prev[m]);
                assert(fields_view(fields@) =~= fields_view(self.fields@).subrange(0, i + 1));
            }
            i += 1;
        }
        proof {
            assert(fields_view(self.fields@).subrange(0, n as int) =~= fields_view(self.fields@));
        }
        let r = Payload { fields };
        proof {
            assert(r.view_fields() =~= self.view_fields());
        }
        r
    }

    /// The canonical JSON bytes of the payload.
    pub fn to_json(&self) -> (r: Vec<u8>)
        ensures
            r@ == jser_obj(self.view_fields()),
    {
        ser_obj(&self.fields)
    }

    /// Reads a payload back from canonical JSON bytes, rejecting duplicate
    /// names.
    pub fn from_json(b: &[u8]) -> (r: Option<Payload>)
        ensures
            match r {
                Some(p) => jparse_obj(b@, 0) matches Some(fp) && fp.0 == p.view_fields()
                    && fp.1 == b@.len() && p.wf(),
                None => !(jparse_obj(b@, 0) matches Some(fp) && fp.1 == b@.len()
                    && keys_unique(fp.0)),
            },
    {
        match parse_obj_exec(b, 0) {
            Some((fields, j)) => {
                if j != b.len() {
                    return None;
                }
                match Payload::from_fields(fields) {
                    Some(p) => Some(p),
                    None => None,
                }
            },
            None => None,
        }
    }
}

// --- helper lemmas on the field-list functions ---

/// When the key first occurs at `i`, binding it updates position `i`.
proof fn lemma_pset_at(fs: Seq<(Seq<char>, SpecValue)>, k: Seq<char>, v: SpecValue, i: int)
    requires
        0 <= i < fs.len(),
        fs[i].0 == k,
        forall|a: int| 0 <= a < i ==> (#[trigger] fs[a]).0 != k,
    ensures
        pset(fs, k, v) == fs.update(i, (k, v)),
    decreases i,
{
    if i == 0 {
        assert(pset(fs, k, v) =~= fs.update(0, (k, v)));
    } else {
        assert(fs[0].0 != k);
        lemma_pset_at(fs.drop_first(), k, v, i - 1);
        assert(fs.drop_first()[i - 1] == fs[i]);
        assert(pset(fs, k, v) =~= fs.update(i, (k, v)));
    }
}

/// When the key is absent, binding it appends.
proof fn lemma_pset_append(fs: Seq<(Seq<char>, SpecValue)>, k: Seq<char>, v: SpecValue)
    requires
        forall|a: int| 0 <= a < fs.len() ==> (#[trigger] fs[a]).0 != k,
    ensures
        pset(fs, k, v) == fs + seq![(k, v)],
    decreases fs.len(),
{
    if fs.len() == 0 {
        assert(pset(fs, k, v) =~= fs + seq![(k, v)]);
    } else {
        lemma_pset_append(fs.drop_first(), k, v);
        assert(pset(fs, k, v) =~= fs + seq![(k, v)]);
    }
}

/// Binding preserves unique names and well-formed values.
proof fn lemma_pset_wf(fs: Seq<(Seq<char>, SpecValue)>, k: Seq<char>, v: SpecValue)
    requires
        keys_unique(fs),
        values_wf(fs),
        sv_wf(v),
    ensures
        keys_unique(pset(fs, k, v)),
        values_wf(pset(fs, k, v)),
        pset(fs, k, v).len() <= fs.len() + 1,
    decreases fs.len(),
{
    if fs.len() == 0 {
    } else if fs[0].0 == k {
        assert(keys_unique(pset(fs, k, v))) by {
            assert(forall|i: int, j: int|
                0 <= i < j < fs.len() ==> (#[trigger] fs[i]).0 != (#[trigger] fs[j]).0);
            assert(pset(fs, k, v) =~= seq![(k, v)] + fs.drop_first());
        }
    } else {
        assert(keys_unique(fs.drop_first())) by {
            assert(forall|i: int, j: int|
                0 <= i < j < fs.drop_first().len() ==> (#[trigger] fs.drop_first()[i]).0 != (
                #[trigger] fs.drop_first()[j]).0) by {
                assert(forall|i: int|
                    0 <= i < fs.drop_first().len() ==> #[trigger] fs.drop_first()[i] == fs[i + 1]);
            }
        }
        assert(values_wf(fs.drop_first())) by {
            assert(forall|i: int|
                0 <= i < fs.drop_first().len() ==> #[trigger] fs.drop_first()[i] == fs[i + 1]);
        }
        lemma_pset_wf(fs.drop_first(), k, v);
        lemma_pset_keys(fs.drop_first(), k, v);
        assert(pset(fs, k, v) =~= seq![fs[0]] + pset(fs.drop_first(), k, v));
    }
}

/// Every name of the bound list is a name of the original or the new key.
proof fn lemma_pset_keys(fs: Seq<(Seq<char>, SpecValue)>, k: Seq<char>, v: SpecValue)
    ensures
        forall|i: int|
            0 <= i < pset(fs, k, v).len() ==> ((#[trigger] pset(fs, k, v)[i]).0 == k || exists|
                j: int,
            |
                0 <= j < fs.len() && fs[j].0 == pset(fs, k, v)[i].0),
    decreases fs.len(),
{
    if fs.len() == 0 {
    } else if fs[0].0 == k {
        assert(forall|i: int|
            1 <= i < pset(fs, k, v).len() ==> #[trigger] pset(fs, k, v)[i] == fs.drop_first()[i
                - 1] && fs.drop_first()[i - 1] == fs[i]);
    } else {
        lemma_pset_keys(fs.drop_first(), k, v);
        assert(forall|i: int|
            1 <= i < pset(fs, k, v).len() ==> #[trigger] pset(fs, k, v)[i] == pset(
                fs.drop_first(),
                k,
                v,
            )[i - 1]);
        assert(forall|j: int|
            0 <= j < fs.drop_first().len() ==> #[trigger] fs.drop_first()[j] == fs[j + 1]);
    }
}

/// When the key first occurs at `i`, removing it removes position `i`.
proof fn lemma_premove_at(fs: Seq<(Seq<char>, SpecValue)>, k: Seq<char>, i: int)
    requires
        0 <= i < fs.len(),
        fs[i].0 == k,
        forall|a: int| 0 <= a < i ==> (#[trigger] fs[a]).0 != k,
    ensures
        premove(fs, k) == fs.remove(i),
    decreases i,
{
    if i == 0 {
        assert(premove(fs, k) =~= fs.remove(0));
    } else {
        lemma_premove_at(fs.drop_first(), k, i - 1);
        assert(fs.drop_first()[i - 1] == fs[i]);
        assert(premove(fs, k) =~= fs.remove(i));
    }
}

/// Removing an absent key is the identity.
proof fn lemma_premove_absent(fs: Seq<(Seq<char>, SpecValue)>, k: Seq<char>)
    requires
        forall|a: int| 0 <= a < fs.len() ==> (#[trigger] fs[a]).0 != k,
    ensures
        premove(fs, k) == fs,
    decreases fs.len(),
{
    if fs.len() > 0 {
        lemma_premove_absent(fs.drop_first(), k);
        assert(premove(fs, k) =~= fs);
    }
}

/// Looking up an absent key gives nothing.
proof fn lemma_plookup_absent(fs: Seq<(Seq<char>, SpecValue)>, k: Seq<char>)
    requires
        forall|a: int| 0 <= a < fs.len() ==> (#[trigger] fs[a]).0 != k,
    ensures
        plookup(fs, k) is None,
    decreases fs.len(),
{
    if fs.len() > 0 {
        lemma_plookup_absent(fs.drop_first(), k);
    }
}

/// When the key first occurs at `i`, the lookup gives that value.
pub proof fn lemma_plookup_at(fs: Seq<(Seq<char>, SpecValue)>, k: Seq<char>, i: int)
    requires
        0 <= i < fs.len(),
        fs[i].0 == k,
        forall|a: int| 0 <= a < i ==> (#[trigger] fs[a]).0 != k,
    ensures
        plookup(fs, k) == Some(fs[i].1),
    decreases i,
{
    if i > 0 {
        lemma_plookup_at(fs.drop_first(), k, i - 1);
        assert(fs.drop_first()[i - 1] == fs[i]);
    }
}

/// Removing preserves unique names and well-formed values.
proof fn lemma_premove_wf(fs: Seq<(Seq<char>, SpecValue)>, k: Seq<char>)
    requires
        keys_unique(fs),
        values_wf(fs),
    ensures
        keys_unique(premove(fs, k)),
        values_wf(premove(fs, k)),
    decreases fs.len(),
{
    if fs.len() == 0 {
    } else if fs[0].0 == k {
        assert(forall|i: int|
            0 <= i < fs.drop_first().len() ==> #[trigger] fs.drop_first()[i] == fs[i + 1]);
    } else {
        assert(forall|i: int|
            0 <= i < fs.drop_first().len() ==> #[trigger] fs.drop_first()[i] == fs[i + 1]);
        lemma_premove_wf(fs.drop_first(), k);
        lemma_premove_keys(fs.drop_first(), k);
        assert(premove(fs, k) =~= seq![fs[0]] + premove(fs.drop_first(), k));
    }
}

/// Every name of the reduced list is a name of the original.
proof fn lemma_premove_keys(fs: Seq<(Seq<char>, SpecValue)>, k: Seq<char>)
    ensures
        forall|i: int|
            0 <= i < premove(fs, k).len() ==> exists|j: int|
                0 <= j < fs.len() && fs[j] == #[trigger] premove(fs, k)[i],
    decreases fs.len(),
{
    if fs.len() == 0 {
    } else if fs[0].0 == k {
        assert(forall|i: int|
            0 <= i < premove(fs, k).len() ==> #[trigger] premove(fs, k)[i] == fs[i + 1]);
    } else {
        lemma_premove_keys(fs.drop_first(), k);
        assert(forall|i: int|
            1 <= i < premove(fs, k).len() ==> #[trigger] premove(fs, k)[i] == premove(
                fs.drop_first(),
                k,
            )[i - 1]);
        assert(forall|j: int|
            0 <= j < fs.drop_first().len() ==> #[trigger] fs.drop_first()[j] == fs[j + 1]);
    }
}

} // verus!
