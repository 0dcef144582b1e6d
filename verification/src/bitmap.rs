//! The bitmap inverted index: for every field and serialized value, the set
//! of record identifiers carrying it, held in roaring bitmaps.
//!
//! A filter evaluates to a bitmap by set algebra over these per-value sets,
//! exactly as specified here: equality reads one set, inequality and
//! negation subtract from the set of all indexed identifiers, membership
//! unions per-value sets, presence unions a whole field, and numeric ranges
//! union the sets of keys that compare as asked.

use vstd::prelude::*;
use vstd::string::StringExecFns;
use roaring::RoaringBitmap;
use crate::value::{Value, SpecValue, vview, num_cmp};
use crate::payload::{Payload, plookup, keys_unique};
use crate::filter::{Filter, FilterCondition, cond_matches};
use crate::json::jser_value;

verus! {

#[verifier::external_type_specification]
#[verifier::external_body]
pub struct ExRoaringBitmap(RoaringBitmap);

/// The set of identifiers a roaring bitmap holds.
pub uninterp spec fn bm_ids(b: RoaringBitmap) -> Set<u32>;

/// Relies on `RoaringBitmap::new`: the empty bitmap.
#[verifier::external_body]
pub(crate) fn bm_new() -> (r: RoaringBitmap)
    ensures
        bm_ids(r) == Set::<u32>::empty(),
        bm_ids(r).finite(),
{
    RoaringBitmap::new()
}

/// Relies on `RoaringBitmap::insert`: adds one identifier; the result says
/// whether it was new.
#[verifier::external_body]
pub(crate) fn bm_insert(b: &mut RoaringBitmap, x: u32) -> (r: bool)
    ensures
        bm_ids(*final(b)) == bm_ids(*old(b)).insert(x),
        r == !bm_ids(*old(b)).contains(x),
        bm_ids(*old(b)).finite() ==> bm_ids(*final(b)).finite(),
{
    b.insert(x)
}

/// Relies on `RoaringBitmap::remove`: removes one identifier; the result
/// says whether it was there.
#[verifier::external_body]
pub(crate) fn bm_remove(b: &mut RoaringBitmap, x: u32) -> (r: bool)
    ensures
        bm_ids(*final(b)) == bm_ids(*old(b)).remove(x),
        r == bm_ids(*old(b)).contains(x),
        bm_ids(*old(b)).finite() ==> bm_ids(*final(b)).finite(),
{
    b.remove(x)
}

/// Relies on `RoaringBitmap::contains`.
#[verifier::external_body]
pub(crate) fn bm_contains(b: &RoaringBitmap, x: u32) -> (r: bool)
    ensures
        r == bm_ids(*b).contains(x),
{
    b.contains(x)
}

/// Relies on `RoaringBitmap::len`: the number of identifiers held.
#[verifier::external_body]
pub(crate) fn bm_len(b: &RoaringBitmap) -> (r: u64)
    requires
        bm_ids(*b).finite(),
    ensures
        r == bm_ids(*b).len(),
{
    b.len()
}

/// Relies on `RoaringBitmap::is_empty`.
#[verifier::external_body]
pub(crate) fn bm_is_empty(b: &RoaringBitmap) -> (r: bool)
    ensures
        r == (bm_ids(*b) == Set::<u32>::empty()),
{
    b.is_empty()
}

/// Relies on the bitwise-and of two bitmaps: set intersection.
#[verifier::external_body]
pub(crate) fn bm_and(a: &RoaringBitmap, b: &RoaringBitmap) -> (r: RoaringBitmap)
    ensures
        bm_ids(r) == bm_ids(*a).intersect(bm_ids(*b)),
        bm_ids(*a).finite() ==> bm_ids(r).finite(),
{
    a & b
}

/// Relies on the bitwise-or of two bitmaps: set union.
#[verifier::external_body]
pub(crate) fn bm_or(a: &RoaringBitmap, b: &RoaringBitmap) -> (r: RoaringBitmap)
    ensures
        bm_ids(r) == bm_ids(*a).union(bm_ids(*b)),
        bm_ids(*a).finite() && bm_ids(*b).finite() ==> bm_ids(r).finite(),
{
    a | b
}

/// Relies on the subtraction of two bitmaps: set difference.
#[verifier::external_body]
pub(crate) fn bm_sub(a: &RoaringBitmap, b: &RoaringBitmap) -> (r: RoaringBitmap)
    ensures
        bm_ids(r) == bm_ids(*a).difference(bm_ids(*b)),
        bm_ids(*a).finite() ==> bm_ids(r).finite(),
{
    a - b
}

/// Relies on `RoaringBitmap::clone`.
#[verifier::external_body]
pub(crate) fn bm_clone(a: &RoaringBitmap) -> (r: RoaringBitmap)
    ensures
        bm_ids(r) == bm_ids(*a),
        bm_ids(*a).finite() ==> bm_ids(r).finite(),
{
    a.clone()
}

/// The byte key a value is indexed under: a string is a tag byte followed
/// by its UTF-8 bytes, any other scalar its serialized form. The tag keeps
/// the keying type-preserving: no string shares a key with a boolean, a
/// number or null, since none of their serialized forms starts with the
/// tag.
pub open spec fn key_of(v: SpecValue) -> Seq<u8> {
    match v {
        SpecValue::Str(s) => seq![115u8] + vstd::utf8::encode_utf8(s),
        _ => jser_value(v),
    }
}

/// Executable key.
pub fn canonical_key(v: &Value) -> (r: Vec<u8>)
    ensures
        r@ == key_of(vview(*v)),
{
    match v {
        Value::Str(s) => {
            let mut out: Vec<u8> = Vec::new();
            out.push(115);
            let sb = vstd::string::StrSliceExecFns::as_bytes_vec(s.as_str());
            let mut i: usize = 0;
            while i < sb.len()
                invariant
                    0 <= i <= sb@.len(),
                    out@ == seq![115u8] + sb@.take(i as int),
                decreases sb@.len() - i,
            {
                out.push(sb[i]);
                proof {
                    assert(out@ =~= seq![115u8] + sb@.take(i + 1));
                }
                i += 1;
            }
            proof {
                assert(sb@.take(sb@.len() as int) =~= sb@);
            }
            out
        },
        _ => {
            let mut out: Vec<u8> = Vec::new();
            crate::json::ser_value(&mut out, v);
            proof {
                assert(out@ =~= jser_value(vview(*v)));
            }
            out
        },
    }
}

/// The view of one field's per-key bitmaps.
pub open spec fn keys_view(ks: Seq<(Vec<u8>, RoaringBitmap)>) -> Seq<(Seq<u8>, RoaringBitmap)> {
    ks.map_values(|p: (Vec<u8>, RoaringBitmap)| (p.0@, p.1))
}

/// First bitmap under a key, if any.
pub open spec fn key_lookup(ks: Seq<(Seq<u8>, RoaringBitmap)>, k: Seq<u8>) -> Option<
    RoaringBitmap,
>
    decreases ks.len(),
{
    if ks.len() == 0 {
        None
    } else if ks[0].0 == k {
        Some(ks[0].1)
    } else {
        key_lookup(ks.drop_first(), k)
    }
}

/// The inverted index.
pub struct BitmapIndex {
    fields: Vec<(String, Vec<(Vec<u8>, RoaringBitmap)>)>,
    all_ids: RoaringBitmap,
}

impl BitmapIndex {
    /// View: the field list.
    pub closed spec fn view_fields(&self) -> Seq<(Seq<char>, Seq<(Seq<u8>, RoaringBitmap)>)> {
        self.fields@.map_values(
            |p: (String, Vec<(Vec<u8>, RoaringBitmap)>)| (p.0@, keys_view(p.1@)),
        )
    }

    /// The set of all indexed identifiers.
    pub closed spec fn all_set(&self) -> Set<u32> {
        bm_ids(self.all_ids)
    }

    /// The set under a field and key; empty when either is absent.
    pub open spec fn get_set(&self, f: Seq<char>, k: Seq<u8>) -> Set<u32> {
        match field_lookup(self.view_fields(), f) {
            Some(ks) => match key_lookup(ks, k) {
                Some(b) => bm_ids(b),
                None => Set::empty(),
            },
            None => Set::empty(),
        }
    }

    /// Well-formed index: unique field names, unique keys per field, every
    /// bitmap finite.
    pub open spec fn wf(&self) -> bool {
        &&& (forall|i: int, j: int|
            0 <= i < j < self.view_fields().len() ==> (#[trigger] self.view_fields()[i]).0 != (
            #[trigger] self.view_fields()[j]).0)
        &&& (forall|i: int, a: int, b: int|
            0 <= i < self.view_fields().len() && 0 <= a < b < (
            #[trigger] self.view_fields()[i]).1.len() ==> (#[trigger] self.view_fields()[i].1[a]).0
                != (#[trigger] self.view_fields()[i].1[b]).0)
        &&& (forall|i: int, a: int|
            0 <= i < self.view_fields().len() && 0 <= a < (
            #[trigger] self.view_fields()[i]).1.len() ==> bm_ids(
                (#[trigger] self.view_fields()[i].1[a]).1,
            ).finite())
        &&& self.all_set().finite()
    }

    /// An empty index.
    pub fn new() -> (r: BitmapIndex)
        ensures
            r.wf(),
            r.all_set() == Set::<u32>::empty(),
            r.view_fields() == Seq::<(Seq<char>, Seq<(Seq<u8>, RoaringBitmap)>)>::empty(),
    {
        let r = BitmapIndex { fields: Vec::new(), all_ids: bm_new() };
        proof {
            assert(r.view_fields() =~= Seq::<(Seq<char>, Seq<(Seq<u8>, RoaringBitmap)>)>::empty());
        }
        r
    }

    /// Number of indexed identifiers.
    pub fn len(&self) -> (r: u64)
        requires
            self.wf(),
        ensures
            r == self.all_set().len(),
    {
        bm_len(&self.all_ids)
    }

    /// Whether nothing is indexed.
    pub fn is_empty(&self) -> (r: bool)
        ensures
            r == (self.all_set() == Set::<u32>::empty()),
    {
        bm_is_empty(&self.all_ids)
    }

    /// Removes everything.
    pub fn clear(&mut self)
        ensures
            final(self).wf(),
            final(self).all_set() == Set::<u32>::empty(),
            final(self).view_fields() == Seq::<(Seq<char>, Seq<(Seq<u8>, RoaringBitmap)>)>::empty(),
    {
        self.fields.clear();
        self.all_ids = bm_new();
        proof {
            assert(self.view_fields() =~= Seq::<
                (Seq<char>, Seq<(Seq<u8>, RoaringBitmap)>),
            >::empty());
        }
    }
}

/// First key list under a field name, if any.
pub open spec fn field_lookup(
    fs: Seq<(Seq<char>, Seq<(Seq<u8>, RoaringBitmap)>)>,
    f: Seq<char>,
) -> Option<Seq<(Seq<u8>, RoaringBitmap)>>
    decreases fs.len(),
{
    if fs.len() == 0 {
        None
    } else if fs[0].0 == f {
        Some(fs[0].1)
    } else {
        field_lookup(fs.drop_first(), f)
    }
}

/// Looking up a list extended at the end: the old binding wins, then the
/// new one.
proof fn lemma_key_lookup_push(ks: Seq<(Seq<u8>, RoaringBitmap)>, x: (Seq<u8>, RoaringBitmap), k: Seq<u8>)
    ensures
        key_lookup(ks.push(x), k) == (if key_lookup(ks, k) is Some {
            key_lookup(ks, k)
        } else if x.0 == k {
            Some(x.1)
        } else {
            None
        }),
    decreases ks.len(),
{
    if ks.len() == 0 {
        assert(ks.push(x)[0] == x);
        assert(ks.push(x).drop_first() =~= Seq::<(Seq<u8>, RoaringBitmap)>::empty());
        assert(key_lookup(Seq::<(Seq<u8>, RoaringBitmap)>::empty(), k) is None);
        if x.0 == k {
            assert(key_lookup(ks.push(x), k) == Some(x.1));
        } else {
            assert(key_lookup(ks.push(x), k) == key_lookup(ks.push(x).drop_first(), k));
        }
        assert(key_lookup(ks, k) is None);
    } else {
        lemma_key_lookup_push(ks.drop_first(), x, k);
        assert(ks.push(x)[0] == ks[0]);
        assert(ks.push(x).drop_first() =~= ks.drop_first().push(x));
    }
}

/// Looking up after updating the first binding of `k`.
proof fn lemma_key_lookup_update(ks: Seq<(Seq<u8>, RoaringBitmap)>, i: int, x: (Seq<u8>, RoaringBitmap), k: Seq<u8>)
    requires
        0 <= i < ks.len(),
        ks[i].0 == x.0,
        forall|a: int| 0 <= a < i ==> (#[trigger] ks[a]).0 != ks[i].0,
    ensures
        key_lookup(ks.update(i, x), ks[i].0) == Some(x.1),
        k != ks[i].0 ==> key_lookup(ks.update(i, x), k) == key_lookup(ks, k),
    decreases ks.len(),
{
    if i == 0 {
        assert(ks.update(0, x)[0] == x);
        assert(ks.update(0, x).drop_first() =~= ks.drop_first());
    } else {
        assert(forall|a: int|
            0 <= a < i - 1 ==> (#[trigger] ks.drop_first()[a]).0 == ks[a + 1].0);
        lemma_key_lookup_update(ks.drop_first(), i - 1, x, k);
        assert(ks.update(i, x)[0] == ks[0]);
        assert(ks.update(i, x).drop_first() =~= ks.drop_first().update(i - 1, x));
        assert(ks.drop_first()[i - 1] == ks[i]);
    }
}

/// Looking up fields extended at the end.
proof fn lemma_field_lookup_push(
    fs: Seq<(Seq<char>, Seq<(Seq<u8>, RoaringBitmap)>)>,
    x: (Seq<char>, Seq<(Seq<u8>, RoaringBitmap)>),
    f: Seq<char>,
)
    ensures
        field_lookup(fs.push(x), f) == (if field_lookup(fs, f) is Some {
            field_lookup(fs, f)
        } else if x.0 == f {
            Some(x.1)
        } else {
            None
        }),
    decreases fs.len(),
{
    if fs.len() == 0 {
        assert(fs.push(x)[0] == x);
        assert(fs.push(x).drop_first() =~= Seq::<
            (Seq<char>, Seq<(Seq<u8>, RoaringBitmap)>),
        >::empty());
        assert(field_lookup(Seq::<(Seq<char>, Seq<(Seq<u8>, RoaringBitmap)>)>::empty(), f)
            is None);
        if x.0 == f {
            assert(field_lookup(fs.push(x), f) == Some(x.1));
        } else {
            assert(field_lookup(fs.push(x), f) == field_lookup(fs.push(x).drop_first(), f));
        }
        assert(field_lookup(fs, f) is None);
    } else {
        lemma_field_lookup_push(fs.drop_first(), x, f);
        assert(fs.push(x)[0] == fs[0]);
        assert(fs.push(x).drop_first() =~= fs.drop_first().push(x));
    }
}

/// Looking up after updating the first binding of a field.
proof fn lemma_field_lookup_update(
    fs: Seq<(Seq<char>, Seq<(Seq<u8>, RoaringBitmap)>)>,
    i: int,
    x: (Seq<char>, Seq<(Seq<u8>, RoaringBitmap)>),
    f: Seq<char>,
)
    requires
        0 <= i < fs.len(),
        fs[i].0 == x.0,
        forall|a: int| 0 <= a < i ==> (#[trigger] fs[a]).0 != fs[i].0,
    ensures
        field_lookup(fs.update(i, x), fs[i].0) == Some(x.1),
        f != fs[i].0 ==> field_lookup(fs.update(i, x), f) == field_lookup(fs, f),
    decreases fs.len(),
{
    if i == 0 {
        assert(fs.update(0, x)[0] == x);
        assert(fs.update(0, x).drop_first() =~= fs.drop_first());
    } else {
        assert(forall|a: int|
            0 <= a < i - 1 ==> (#[trigger] fs.drop_first()[a]).0 == fs[a + 1].0);
        lemma_field_lookup_update(fs.drop_first(), i - 1, x, f);
        assert(fs.update(i, x)[0] == fs[0]);
        assert(fs.update(i, x).drop_first() =~= fs.drop_first().update(i - 1, x));
        assert(fs.drop_first()[i - 1] == fs[i]);
    }
}

/// A found first binding, as an index with no earlier match.
proof fn lemma_field_lookup_at(
    fs: Seq<(Seq<char>, Seq<(Seq<u8>, RoaringBitmap)>)>,
    i: int,
)
    requires
        0 <= i < fs.len(),
        forall|a: int| 0 <= a < i ==> (#[trigger] fs[a]).0 != fs[i].0,
    ensures
        field_lookup(fs, fs[i].0) == Some(fs[i].1),
    decreases i,
{
    if i > 0 {
        assert(forall|a: int|
            0 <= a < i - 1 ==> (#[trigger] fs.drop_first()[a]).0 == fs[a + 1].0);
        lemma_field_lookup_at(fs.drop_first(), i - 1);
        assert(fs.drop_first()[i - 1] == fs[i]);
    }
}

/// A found first key binding, as an index with no earlier match.
proof fn lemma_key_lookup_at(ks: Seq<(Seq<u8>, RoaringBitmap)>, i: int)
    requires
        0 <= i < ks.len(),
        forall|a: int| 0 <= a < i ==> (#[trigger] ks[a]).0 != ks[i].0,
    ensures
        key_lookup(ks, ks[i].0) == Some(ks[i].1),
    decreases i,
{
    if i > 0 {
        assert(forall|a: int|
            0 <= a < i - 1 ==> (#[trigger] ks.drop_first()[a]).0 == ks[a + 1].0);
        lemma_key_lookup_at(ks.drop_first(), i - 1);
        assert(ks.drop_first()[i - 1] == ks[i]);
    }
}

/// A missed lookup means no binding carries the name.
proof fn lemma_field_lookup_none(
    fs: Seq<(Seq<char>, Seq<(Seq<u8>, RoaringBitmap)>)>,
    f: Seq<char>,
)
    requires
        field_lookup(fs, f) is None,
    ensures
        forall|a: int| 0 <= a < fs.len() ==> (#[trigger] fs[a]).0 != f,
    decreases fs.len(),
{
    if fs.len() > 0 {
        lemma_field_lookup_none(fs.drop_first(), f);
        assert(forall|a: int|
            1 <= a < fs.len() ==> #[trigger] fs[a] == fs.drop_first()[a - 1]);
    }
}

/// A missed key lookup means no binding carries the key.
proof fn lemma_key_lookup_none(ks: Seq<(Seq<u8>, RoaringBitmap)>, k: Seq<u8>)
    requires
        key_lookup(ks, k) is None,
    ensures
        forall|a: int| 0 <= a < ks.len() ==> (#[trigger] ks[a]).0 != k,
    decreases ks.len(),
{
    if ks.len() > 0 {
        lemma_key_lookup_none(ks.drop_first(), k);
        assert(forall|a: int|
            1 <= a < ks.len() ==> #[trigger] ks[a] == ks.drop_first()[a - 1]);
    }
}

impl BitmapIndex {
    /// Finds a field's position.
    fn find_field(&self, name: &str) -> (r: Option<usize>)
        ensures
            match r {
                Some(i) => i < self.view_fields().len() && self.view_fields()[i as int].0
                    == name@ && (forall|a: int|
                    0 <= a < i ==> (#[trigger] self.view_fields()[a]).0 != name@),
                None => field_lookup(self.view_fields(), name@) is None,
            },
    {
        let ns = name.to_owned();
        let n = self.fields.len();
        let mut i: usize = 0;
        proof {
            assert(self.view_fields().skip(0) =~= self.view_fields());
        }
        while i < n
            invariant
                0 <= i <= n,
                n == self.fields@.len(),
                ns@ == name@,
                forall|a: int| 0 <= a < i ==> (#[trigger] self.view_fields()[a]).0 != name@,
                field_lookup(self.view_fields(), name@) == field_lookup(
                    self.view_fields().skip(i as int),
                    name@,
                ),
            decreases n - i,
        {
            proof {
                assert(self.view_fields().skip(i as int)[0] == self.view_fields()[i as int]);
                assert(self.view_fields().skip(i as int).drop_first()
                    =~= self.view_fields().skip(i + 1));
            }
            if self.fields[i].0 == ns {
                return Some(i);
            }
            i += 1;
        }
        proof {
            assert(self.view_fields().skip(n as int).len() == 0);
        }
        None
    }

    /// Adds `id32` to the set under one field and key, creating them as
    /// needed; every other set stands as before.
    #[verifier::rlimit(100)]
    #[verifier::spinoff_prover]
    fn bump_add(&mut self, name: &str, key: Vec<u8>, id32: u32)
        requires
            old(self).wf(),
        ensures
            final(self).wf(),
            final(self).all_set() == old(self).all_set(),
            forall|f: Seq<char>, k: Seq<u8>|
                #[trigger] final(self).get_set(f, k) == (if f == name@ && k == key@ {
                    old(self).get_set(f, k).insert(id32)
                } else {
                    old(self).get_set(f, k)
                }),
    {
        let ghost fs0 = self.view_fields();
        match self.find_field(name) {
            Some(fi) => {
                proof {
                    lemma_field_lookup_at(fs0, fi as int);
                }
                let mut entry = self.fields.remove(fi);
                let ghost ks0 = keys_view(entry.1@);
                proof {
                    assert(field_lookup(fs0, name@) == Some(ks0));
                }
                // find the key inside the field
                let kn = entry.1.len();
                let mut ki: usize = 0;
                let mut found = kn;
                while ki < kn
                    invariant
                        0 <= ki <= kn,
                        kn == entry.1@.len(),
                        found == kn || (found < ki && keys_view(entry.1@)[found as int].0
                            == key@),
                        found == kn ==> forall|a: int|
                            0 <= a < ki ==> (#[trigger] keys_view(entry.1@)[a]).0 != key@,
                        found < kn ==> forall|a: int|
                            0 <= a < found ==> (#[trigger] keys_view(entry.1@)[a]).0 != key@,
                    decreases kn - ki,
                {
                    if found == kn && crate::bytes::bytes_eq(
                        entry.1[ki].0.as_slice(),
                        key.as_slice(),
                    ) {
                        found = ki;
                        proof {
                            assert(keys_view(entry.1@)[ki as int].0 == key@);
                        }
                    }
                    ki += 1;
                }
                if found < kn {
                    let mut pair = entry.1.remove(found);
                    let _ = bm_insert(&mut pair.1, id32);
                    entry.1.insert(found, pair);
                    proof {
                        assert(keys_view(entry.1@) =~= ks0.update(
                            found as int,
                            (key@, entry.1@[found as int].1),
                        ));
                        lemma_key_lookup_update(ks0, found as int, (
                            key@,
                            entry.1@[found as int].1,
                        ), key@);
                    }
                } else {
                    let mut nb = bm_new();
                    let _ = bm_insert(&mut nb, id32);
                    entry.1.push((key_copy(&key), nb));
                    proof {
                        assert(keys_view(entry.1@) =~= ks0.push((key@, entry.1@[kn as int].1)));
                        lemma_key_lookup_push(ks0, (key@, entry.1@[kn as int].1), key@);
                        if key_lookup(ks0, key@) is Some {
                            lemma_key_lookup_member(ks0, key@);
                            assert(false);
                        }
                    }
                }
                let ghost ksn = keys_view(entry.1@);
                self.fields.insert(fi, entry);
                proof {
                    assert(self.view_fields() =~= fs0.update(fi as int, (name@, ksn)));
                    lemma_field_lookup_update(fs0, fi as int, (name@, ksn), name@);
                    assert forall|f: Seq<char>, k: Seq<u8>|
                        #[trigger] self.get_set(f, k) == (if f == name@ && k == key@ {
                            old(self).get_set(f, k).insert(id32)
                        } else {
                            old(self).get_set(f, k)
                        }) by {
                        if f == name@ {
                            assert(field_lookup(self.view_fields(), f) == Some(ksn));
                            assert(field_lookup(fs0, f) == Some(ks0));
                            if k == key@ {
                                if found < kn {
                                    lemma_key_lookup_at(ks0, found as int);
                                    assert(key_lookup(ks0, key@) == Some(ks0[found as int].1));
                                    assert(key_lookup(ksn, key@) == Some(ksn[found as int].1));
                                    assert(bm_ids(ksn[found as int].1) == bm_ids(
                                        ks0[found as int].1,
                                    ).insert(id32));
                                } else {
                                    assert(key_lookup(ks0, key@) is None);
                                    assert(key_lookup(ksn, key@) == Some(ksn[kn as int].1));
                                    assert(bm_ids(ksn[kn as int].1) =~= Set::<
                                        u32,
                                    >::empty().insert(id32));
                                    assert(old(self).get_set(f, k) =~= Set::<u32>::empty());
                                    assert(old(self).get_set(f, k).insert(id32) =~= Set::<
                                        u32,
                                    >::empty().insert(id32));
                                }
                            } else {
                                if found < kn {
                                    lemma_key_lookup_update(ks0, found as int, (
                                        key@,
                                        ksn[found as int].1,
                                    ), k);
                                } else {
                                    lemma_key_lookup_push(ks0, ksn[kn as int], k);
                                }
                            }
                        } else {
                            lemma_field_lookup_update(fs0, fi as int, (name@, ksn), f);
                        }
                    }
                }
            },
            None => {
                let mut nb = bm_new();
                let _ = bm_insert(&mut nb, id32);
                let mut inner: Vec<(Vec<u8>, RoaringBitmap)> = Vec::new();
                inner.push((key_copy(&key), nb));
                self.fields.push((name.to_owned(), inner));
                proof {
                    let nks = keys_view(self.fields@[fs0.len() as int].1@);
                    assert(self.view_fields() =~= fs0.push((name@, nks)));
                    assert(nks.len() == 1 && nks[0].0 == key@);
                    assert forall|f: Seq<char>, k: Seq<u8>|
                        #[trigger] self.get_set(f, k) == (if f == name@ && k == key@ {
                            old(self).get_set(f, k).insert(id32)
                        } else {
                            old(self).get_set(f, k)
                        }) by {
                        lemma_field_lookup_push(fs0, (name@, nks), f);
                        if f == name@ {
                            assert(field_lookup(fs0, f) is None);
                            assert(field_lookup(self.view_fields(), f) == Some(nks));
                            if k == key@ {
                                assert(key_lookup(nks, k) == Some(nks[0].1));
                                assert(old(self).get_set(f, k) =~= Set::<u32>::empty());
                                assert(bm_ids(nks[0].1) =~= Set::<u32>::empty().insert(id32));
                            } else {
                                assert(key_lookup(nks, k) is None) by {
                                    assert(nks.drop_first().len() == 0);
                                    assert(key_lookup(nks.drop_first(), k) is None);
                                    assert(nks[0].0 != k);
                                }
                                assert(old(self).get_set(f, k) =~= Set::<u32>::empty());
                            }
                        }
                    }
                    lemma_field_lookup_none(fs0, name@);
                }
            },
        }
    }
}

/// A found key binding means the lookup hits.
proof fn lemma_key_lookup_member(ks: Seq<(Seq<u8>, RoaringBitmap)>, k: Seq<u8>)
    ensures
        key_lookup(ks, k) is Some ==> exists|i: int|
            0 <= i < ks.len() && (#[trigger] ks[i]).0 == k,
    decreases ks.len(),
{
    if ks.len() > 0 {
        lemma_key_lookup_member(ks.drop_first(), k);
        if ks[0].0 == k {
        } else if key_lookup(ks.drop_first(), k) is Some {
            let i = choose|i: int|
                0 <= i < ks.drop_first().len() && (#[trigger] ks.drop_first()[i]).0 == k;
            assert(ks[i + 1].0 == k);
        }
    }
}

/// A byte-for-byte copy of a key.
fn key_copy(k: &Vec<u8>) -> (r: Vec<u8>)
    ensures
        r@ == k@,
{
    let mut out: Vec<u8> = Vec::new();
    let mut i: usize = 0;
    while i < k.len()
        invariant
            0 <= i <= k@.len(),
            out@ == k@.take(i as int),
        decreases k@.len() - i,
    {
        out.push(k[i]);
        proof {
            assert(out@ =~= k@.take(i + 1));
        }
        i += 1;
    }
    proof {
        assert(k@.take(k@.len() as int) =~= k@);
    }
    out
}

impl BitmapIndex {
    /// Removes `id32` from the set under one field and key; every other set
    /// stands as before. Absent fields or keys stay absent.
    #[verifier::rlimit(100)]
    #[verifier::spinoff_prover]
    fn bump_remove(&mut self, name: &str, key: &Vec<u8>, id32: u32)
        requires
            old(self).wf(),
        ensures
            final(self).wf(),
            final(self).all_set() == old(self).all_set(),
            forall|f: Seq<char>, k: Seq<u8>|
                #[trigger] final(self).get_set(f, k) == (if f == name@ && k == key@ {
                    old(self).get_set(f, k).remove(id32)
                } else {
                    old(self).get_set(f, k)
                }),
    {
        let ghost fs0 = self.view_fields();
        match self.find_field(name) {
            Some(fi) => {
                proof {
                    lemma_field_lookup_at(fs0, fi as int);
                }
                let mut entry = self.fields.remove(fi);
                let ghost ks0 = keys_view(entry.1@);
                proof {
                    assert(field_lookup(fs0, name@) == Some(ks0));
                }
                let kn = entry.1.len();
                let mut ki: usize = 0;
                let mut found = kn;
                while ki < kn
                    invariant
                        0 <= ki <= kn,
                        kn == entry.1@.len(),
                        found == kn || (found < ki && keys_view(entry.1@)[found as int].0
                            == key@),
                        found == kn ==> forall|a: int|
                            0 <= a < ki ==> (#[trigger] keys_view(entry.1@)[a]).0 != key@,
                        found < kn ==> forall|a: int|
                            0 <= a < found ==> (#[trigger] keys_view(entry.1@)[a]).0 != key@,
                    decreases kn - ki,
                {
                    if found == kn && crate::bytes::bytes_eq(
                        entry.1[ki].0.as_slice(),
                        key.as_slice(),
                    ) {
                        found = ki;
                        proof {
                            assert(keys_view(entry.1@)[ki as int].0 == key@);
                        }
                    }
                    ki += 1;
                }
                if found < kn {
                    let mut pair = entry.1.remove(found);
                    let _ = bm_remove(&mut pair.1, id32);
                    entry.1.insert(found, pair);
                    proof {
                        assert(keys_view(entry.1@) =~= ks0.update(
                            found as int,
                            (key@, entry.1@[found as int].1),
                        ));
                    }
                    let ghost ksn = keys_view(entry.1@);
                    self.fields.insert(fi, entry);
                    proof {
                        assert(self.view_fields() =~= fs0.update(fi as int, (name@, ksn)));
                        lemma_field_lookup_update(fs0, fi as int, (name@, ksn), name@);
                        assert forall|f: Seq<char>, k: Seq<u8>|
                            #[trigger] self.get_set(f, k) == (if f == name@ && k == key@ {
                                old(self).get_set(f, k).remove(id32)
                            } else {
                                old(self).get_set(f, k)
                            }) by {
                            if f == name@ {
                                assert(field_lookup(self.view_fields(), f) == Some(ksn));
                                if k == key@ {
                                    lemma_key_lookup_at(ks0, found as int);
                                    lemma_key_lookup_update(ks0, found as int, (
                                        key@,
                                        ksn[found as int].1,
                                    ), k);
                                } else {
                                    lemma_key_lookup_update(ks0, found as int, (
                                        key@,
                                        ksn[found as int].1,
                                    ), k);
                                }
                            } else {
                                lemma_field_lookup_update(fs0, fi as int, (name@, ksn), f);
                            }
                        }
                    }
                } else {
                    let ghost ksn = keys_view(entry.1@);
                    self.fields.insert(fi, entry);
                    proof {
                        assert(ksn == ks0);
                        assert(self.view_fields() =~= fs0.update(fi as int, (name@, ksn)));
                        lemma_field_lookup_update(fs0, fi as int, (name@, ksn), name@);
                        assert forall|f: Seq<char>, k: Seq<u8>|
                            #[trigger] self.get_set(f, k) == (if f == name@ && k == key@ {
                                old(self).get_set(f, k).remove(id32)
                            } else {
                                old(self).get_set(f, k)
                            }) by {
                            if f == name@ {
                                assert(field_lookup(self.view_fields(), f) == Some(ksn));
                                if k == key@ {
                                    assert(key_lookup(ks0, key@) is None) by {
                                        lemma_key_lookup_member(ks0, key@);
                                        if key_lookup(ks0, key@) is Some {
                                            assert(false);
                                        }
                                    }
                                    assert(old(self).get_set(f, k) =~= Set::<u32>::empty());
                                    assert(Set::<u32>::empty().remove(id32) =~= Set::<
                                        u32,
                                    >::empty());
                                }
                            } else {
                                lemma_field_lookup_update(fs0, fi as int, (name@, ksn), f);
                            }
                        }
                    }
                }
            },
            None => {
                proof {
                    assert forall|f: Seq<char>, k: Seq<u8>|
                        #[trigger] self.get_set(f, k) == (if f == name@ && k == key@ {
                            old(self).get_set(f, k).remove(id32)
                        } else {
                            old(self).get_set(f, k)
                        }) by {
                        if f == name@ && k == key@ {
                            assert(old(self).get_set(f, k) =~= Set::<u32>::empty());
                            assert(Set::<u32>::empty().remove(id32) =~= Set::<u32>::empty());
                        }
                    }
                }
            },
        }
    }
}

/// Whether some field among the first `upto` carries name `f` with key `k`.
pub open spec fn has_kv(
    fields: Seq<(Seq<char>, SpecValue)>,
    f: Seq<char>,
    k: Seq<u8>,
    upto: int,
) -> bool {
    exists|i: int| 0 <= i < upto && i < fields.len() && (#[trigger] fields[i]).0 == f && key_of(
        fields[i].1,
    ) == k
}

impl BitmapIndex {
    /// Indexes a record's payload: the identifier, truncated to 32 bits,
    /// joins the set of every field and value the payload carries, and the
    /// set of all indexed identifiers.
    #[verifier::rlimit(100)]
    #[verifier::spinoff_prover]
    pub fn insert(&mut self, id: u64, payload: &Payload)
        requires
            old(self).wf(),
        ensures
            final(self).wf(),
            final(self).all_set() == old(self).all_set().insert(id as u32),
            forall|f: Seq<char>, k: Seq<u8>|
                #[trigger] final(self).get_set(f, k) == (if has_kv(payload.view_fields(), f, k,
                payload.view_fields().len() as int) {
                    old(self).get_set(f, k).insert(id as u32)
                } else {
                    old(self).get_set(f, k)
                }),
    {
        let id32 = id as u32;
        let _ = bm_insert(&mut self.all_ids, id32);
        proof {
            assert(self.view_fields() == old(self).view_fields());
            assert(self.wf());
        }
        let items = payload.items();
        let n = items.len();
        let ghost pv = payload.view_fields();
        let mut t: usize = 0;
        proof {
            assert(crate::json::fields_view(items@) == pv);
        }
        while t < n
            invariant
                0 <= t <= n,
                n == items@.len(),
                n == pv.len(),
                crate::json::fields_view(items@) == pv,
                self.wf(),
                self.all_set() == old(self).all_set().insert(id as u32),
                id32 == id as u32,
                forall|f: Seq<char>, k: Seq<u8>|
                    #[trigger] self.get_set(f, k) == (if has_kv(pv, f, k, t as int) {
                        old(self).get_set(f, k).insert(id as u32)
                    } else {
                        old(self).get_set(f, k)
                    }),
            decreases n - t,
        {
            let key = canonical_key(&items[t].1);
            let ghost before = *self;
            proof {
                assert(pv[t as int].0 == items@[t as int].0@);
                assert(key_of(pv[t as int].1) == key@);
            }
            self.bump_add(items[t].0.as_str(), key, id32);
            proof {
                assert forall|f: Seq<char>, k: Seq<u8>|
                    #[trigger] self.get_set(f, k) == (if has_kv(pv, f, k, t + 1) {
                        old(self).get_set(f, k).insert(id as u32)
                    } else {
                        old(self).get_set(f, k)
                    }) by {
                    if f == pv[t as int].0 && k == key_of(pv[t as int].1) {
                        assert(has_kv(pv, f, k, t + 1));
                        if has_kv(pv, f, k, t as int) {
                            assert(before.get_set(f, k) == old(self).get_set(f, k).insert(
                                id as u32,
                            ));
                            assert(self.get_set(f, k) =~= old(self).get_set(f, k).insert(
                                id as u32,
                            ));
                        }
                    } else {
                        assert(self.get_set(f, k) == before.get_set(f, k));
                        assert(has_kv(pv, f, k, t + 1) == has_kv(pv, f, k, t as int)) by {
                            if has_kv(pv, f, k, t + 1) && !has_kv(pv, f, k, t as int) {
                                let i = choose|i: int|
                                    0 <= i < t + 1 && i < pv.len() && (#[trigger] pv[i]).0 == f
                                        && key_of(pv[i].1) == k;
                                assert(i == t);
                                assert(false);
                            }
                        }
                    }
                }
            }
            t += 1;
        }
    }

    /// Unindexes a record's payload: the mirror of `insert`.
    #[verifier::rlimit(100)]
    #[verifier::spinoff_prover]
    pub fn delete(&mut self, id: u64, payload: &Payload)
        requires
            old(self).wf(),
        ensures
            final(self).wf(),
            final(self).all_set() == old(self).all_set().remove(id as u32),
            forall|f: Seq<char>, k: Seq<u8>|
                #[trigger] final(self).get_set(f, k) == (if has_kv(payload.view_fields(), f, k,
                payload.view_fields().len() as int) {
                    old(self).get_set(f, k).remove(id as u32)
                } else {
                    old(self).get_set(f, k)
                }),
    {
        let id32 = id as u32;
        let _ = bm_remove(&mut self.all_ids, id32);
        proof {
            assert(self.view_fields() == old(self).view_fields());
            assert(self.wf());
        }
        let items = payload.items();
        let n = items.len();
        let ghost pv = payload.view_fields();
        let mut t: usize = 0;
        proof {
            assert(crate::json::fields_view(items@) == pv);
        }
        while t < n
            invariant
                0 <= t <= n,
                n == items@.len(),
                n == pv.len(),
                crate::json::fields_view(items@) == pv,
                self.wf(),
                self.all_set() == old(self).all_set().remove(id as u32),
                id32 == id as u32,
                forall|f: Seq<char>, k: Seq<u8>|
                    #[trigger] self.get_set(f, k) == (if has_kv(pv, f, k, t as int) {
                        old(self).get_set(f, k).remove(id as u32)
                    } else {
                        old(self).get_set(f, k)
                    }),
            decreases n - t,
        {
            let key = canonical_key(&items[t].1);
            let ghost before = *self;
            proof {
                assert(pv[t as int].0 == items@[t as int].0@);
                assert(key_of(pv[t as int].1) == key@);
            }
            self.bump_remove(items[t].0.as_str(), &key, id32);
            proof {
                assert forall|f: Seq<char>, k: Seq<u8>|
                    #[trigger] self.get_set(f, k) == (if has_kv(pv, f, k, t + 1) {
                        old(self).get_set(f, k).remove(id as u32)
                    } else {
                        old(self).get_set(f, k)
                    }) by {
                    if f == pv[t as int].0 && k == key_of(pv[t as int].1) {
                        assert(has_kv(pv, f, k, t + 1));
                        if has_kv(pv, f, k, t as int) {
                            assert(self.get_set(f, k) =~= old(self).get_set(f, k).remove(
                                id as u32,
                            ));
                        }
                    } else {
                        assert(self.get_set(f, k) == before.get_set(f, k));
                        assert(has_kv(pv, f, k, t + 1) == has_kv(pv, f, k, t as int)) by {
                            if has_kv(pv, f, k, t + 1) && !has_kv(pv, f, k, t as int) {
                                let i = choose|i: int|
                                    0 <= i < t + 1 && i < pv.len() && (#[trigger] pv[i]).0 == f
                                        && key_of(pv[i].1) == k;
                                assert(i == t);
                                assert(false);
                            }
                        }
                    }
                }
            }
            t += 1;
        }
    }
}

/// Union of every per-key set of a field.
pub open spec fn keys_union(ks: Seq<(Seq<u8>, RoaringBitmap)>) -> Set<u32>
    decreases ks.len(),
{
    if ks.len() == 0 {
        Set::empty()
    } else {
        bm_ids(ks[0].1).union(keys_union(ks.drop_first()))
    }
}

/// Union of the sets under the listed values of a field.
pub open spec fn in_union(idx: BitmapIndex, f: Seq<char>, vs: Seq<Value>, i: int) -> Set<u32>
    decreases vs.len() - i,
{
    if i < 0 || i >= vs.len() {
        Set::empty()
    } else {
        idx.get_set(f, key_of(vview(vs[i]))).union(in_union(idx, f, vs, i + 1))
    }
}

/// The token a range condition compares against: the operand's numeric
/// token, or the zero token for a non-numeric operand.
pub open spec fn op_token(v: SpecValue) -> Seq<u8> {
    match v {
        SpecValue::Num(t) => t,
        _ => seq![48u8],
    }
}

/// Union of the per-key sets whose key compares numerically against the
/// token with a three-way result in `[lo, hi]`.
pub open spec fn range_union(
    ks: Seq<(Seq<u8>, RoaringBitmap)>,
    t: Seq<u8>,
    lo: int,
    hi: int,
) -> Set<u32>
    decreases ks.len(),
{
    if ks.len() == 0 {
        Set::empty()
    } else {
        (match num_cmp(ks[0].0, t) {
            Some(c) => if lo <= c <= hi {
                bm_ids(ks[0].1)
            } else {
                Set::empty()
            },
            None => Set::empty(),
        }).union(range_union(ks.drop_first(), t, lo, hi))
    }
}

/// What a filter condition evaluates to over the index, by set algebra.
pub open spec fn eval_cond(idx: BitmapIndex, c: FilterCondition) -> Set<u32>
    decreases c,
{
    match c {
        FilterCondition::Eq(f, v) => idx.get_set(f@, key_of(vview(v))),
        FilterCondition::Ne(f, v) => idx.all_set().difference(idx.get_set(f@, key_of(vview(v)))),
        FilterCondition::Gt(f, v) => match field_lookup(idx.view_fields(), f@) {
            Some(ks) => range_union(ks, op_token(vview(v)), 1, 1),
            None => Set::empty(),
        },
        FilterCondition::Gte(f, v) => match field_lookup(idx.view_fields(), f@) {
            Some(ks) => range_union(ks, op_token(vview(v)), 0, 1),
            None => Set::empty(),
        },
        FilterCondition::Lt(f, v) => match field_lookup(idx.view_fields(), f@) {
            Some(ks) => range_union(ks, op_token(vview(v)), -1, -1),
            None => Set::empty(),
        },
        FilterCondition::Lte(f, v) => match field_lookup(idx.view_fields(), f@) {
            Some(ks) => range_union(ks, op_token(vview(v)), -1, 0),
            None => Set::empty(),
        },
        FilterCondition::In(f, vs) => in_union(idx, f@, vs@, 0),
        FilterCondition::Contains(f, _) => match field_lookup(idx.view_fields(), f@) {
            Some(ks) => keys_union(ks),
            None => Set::empty(),
        },
        FilterCondition::Exists(f) => match field_lookup(idx.view_fields(), f@) {
            Some(ks) => keys_union(ks),
            None => Set::empty(),
        },
        FilterCondition::And(a, b) => eval_cond(idx, *a).intersect(eval_cond(idx, *b)),
        FilterCondition::Or(a, b) => eval_cond(idx, *a).union(eval_cond(idx, *b)),
        FilterCondition::Not(a) => idx.all_set().difference(eval_cond(idx, *a)),
    }
}

impl BitmapIndex {
    /// The bitmap under a field and key, copied; empty when absent.
    fn get_bitmap(&self, name: &str, key: &Vec<u8>) -> (r: RoaringBitmap)
        requires
            self.wf(),
        ensures
            bm_ids(r) == self.get_set(name@, key@),
            bm_ids(r).finite(),
    {
        match self.find_field(name) {
            Some(fi) => {
                proof {
                    lemma_field_lookup_at(self.view_fields(), fi as int);
                }
                let kn = self.fields[fi].1.len();
                let mut ki: usize = 0;
                while ki < kn
                    invariant
                        0 <= ki <= kn,
                        fi < self.fields@.len(),
                        self.wf(),
                        kn == self.view_fields()[fi as int].1.len(),
                        field_lookup(self.view_fields(), name@) == Some(
                            self.view_fields()[fi as int].1,
                        ),
                        forall|a: int|
                            0 <= a < ki ==> (#[trigger] self.view_fields()[fi as int].1[a]).0
                                != key@,
                    decreases kn - ki,
                {
                    if crate::bytes::bytes_eq(
                        self.fields[fi].1[ki].0.as_slice(),
                        key.as_slice(),
                    ) {
                        proof {
                            assert(self.view_fields()[fi as int].1[ki as int].0 == key@);
                            lemma_key_lookup_at(self.view_fields()[fi as int].1, ki as int);
                        }
                        return bm_clone(&self.fields[fi].1[ki].1);
                    }
                    ki += 1;
                }
                proof {
                    lemma_key_lookup_member(self.view_fields()[fi as int].1, key@);
                    if key_lookup(self.view_fields()[fi as int].1, key@) is Some {
                        assert(false);
                    }
                }
                bm_new()
            },
            None => bm_new(),
        }
    }

    /// Union of every per-key bitmap of a field, copied; empty when the
    /// field is absent.
    fn field_union_bitmap(&self, name: &str) -> (r: RoaringBitmap)
        requires
            self.wf(),
        ensures
            bm_ids(r) == (match field_lookup(self.view_fields(), name@) {
                Some(ks) => keys_union(ks),
                None => Set::<u32>::empty(),
            }),
            bm_ids(r).finite(),
    {
        match self.find_field(name) {
            Some(fi) => {
                proof {
                    lemma_field_lookup_at(self.view_fields(), fi as int);
                }
                let ghost ks = self.view_fields()[fi as int].1;
                let kn = self.fields[fi].1.len();
                let mut acc = bm_new();
                let mut ki: usize = 0;
                proof {
                    assert(ks.skip(0) =~= ks);
                    assert(keys_union(ks.skip(0)) == keys_union(ks));
                }
                while ki < kn
                    invariant
                        0 <= ki <= kn,
                        fi < self.fields@.len(),
                        self.wf(),
                        ks == self.view_fields()[fi as int].1,
                        kn == ks.len(),
                        bm_ids(acc).finite(),
                        keys_union(ks) == bm_ids(acc).union(keys_union(ks.skip(ki as int))),
                    decreases kn - ki,
                {
                    proof {
                        assert(ks.skip(ki as int)[0] == ks[ki as int]);
                        assert(ks.skip(ki as int).drop_first() =~= ks.skip(ki + 1));
                    }
                    let merged = bm_or(&acc, &self.fields[fi].1[ki].1);
                    proof {
                        assert(bm_ids(self.fields@[fi as int].1@[ki as int].1) == bm_ids(
                            ks[ki as int].1,
                        ));
                        assert(keys_union(ks) =~= bm_ids(merged).union(
                            keys_union(ks.skip(ki + 1)),
                        ));
                    }
                    acc = merged;
                    ki += 1;
                }
                proof {
                    assert(ks.skip(kn as int).len() == 0);
                    assert(keys_union(ks.skip(kn as int)) =~= Set::<u32>::empty());
                    assert(keys_union(ks) =~= bm_ids(acc));
                }
                acc
            },
            None => bm_new(),
        }
    }

    /// Union of the per-key bitmaps whose key compares numerically against
    /// the operand with a three-way result in `[lo, hi]`.
    fn range_bitmap(&self, name: &str, token: &Vec<u8>, lo: i32, hi: i32) -> (r: RoaringBitmap)
        requires
            self.wf(),
        ensures
            bm_ids(r) == (match field_lookup(self.view_fields(), name@) {
                Some(ks) => range_union(ks, token@, lo as int, hi as int),
                None => Set::<u32>::empty(),
            }),
            bm_ids(r).finite(),
    {
        match self.find_field(name) {
            Some(fi) => {
                proof {
                    lemma_field_lookup_at(self.view_fields(), fi as int);
                }
                let ghost ks = self.view_fields()[fi as int].1;
                let kn = self.fields[fi].1.len();
                let mut acc = bm_new();
                let mut ki: usize = 0;
                proof {
                    assert(ks.skip(0) =~= ks);
                }
                while ki < kn
                    invariant
                        0 <= ki <= kn,
                        fi < self.fields@.len(),
                        self.wf(),
                        ks == self.view_fields()[fi as int].1,
                        kn == ks.len(),
                        bm_ids(acc).finite(),
                        range_union(ks, token@, lo as int, hi as int) == bm_ids(acc).union(
                            range_union(ks.skip(ki as int), token@, lo as int, hi as int),
                        ),
                    decreases kn - ki,
                {
                    proof {
                        assert(ks.skip(ki as int)[0] == ks[ki as int]);
                        assert(ks.skip(ki as int).drop_first() =~= ks.skip(ki + 1));
                        assert(self.fields@[fi as int].1@[ki as int].0@ == ks[ki as int].0);
                    }
                    let cmp = crate::value::compare_tokens(
                        self.fields[fi].1[ki].0.as_slice(),
                        token.as_slice(),
                    );
                    let hit = match cmp {
                        Some(c) => lo <= c && c <= hi,
                        None => false,
                    };
                    if hit {
                        let merged = bm_or(&acc, &self.fields[fi].1[ki].1);
                        proof {
                            assert(range_union(ks, token@, lo as int, hi as int) =~= bm_ids(
                                merged,
                            ).union(range_union(ks.skip(ki + 1), token@, lo as int, hi as int)));
                        }
                        acc = merged;
                    } else {
                        proof {
                            assert(range_union(ks, token@, lo as int, hi as int) =~= bm_ids(
                                acc,
                            ).union(range_union(ks.skip(ki + 1), token@, lo as int, hi as int)));
                        }
                    }
                    ki += 1;
                }
                proof {
                    assert(ks.skip(kn as int).len() == 0);
                    assert(range_union(ks.skip(kn as int), token@, lo as int, hi as int)
                        =~= Set::<u32>::empty());
                    assert(range_union(ks, token@, lo as int, hi as int) =~= bm_ids(acc));
                }
                acc
            },
            None => bm_new(),
        }
    }

    /// The numeric token a range condition compares against.
    fn operand_token(v: &Value) -> (r: Vec<u8>)
        ensures
            r@ == op_token(vview(*v)),
    {
        match v.num_token() {
            Some(t) => key_copy(t),
            None => {
                let mut z: Vec<u8> = Vec::new();
                z.push(48);
                proof {
                    assert(z@ =~= seq![48u8]);
                }
                z
            },
        }
    }

    /// Evaluates a condition to a bitmap, by the set algebra given in
    /// `eval_cond`.
    #[verifier::rlimit(100)]
    fn eval_condition(&self, c: &FilterCondition) -> (r: RoaringBitmap)
        requires
            self.wf(),
        ensures
            bm_ids(r) == eval_cond(*self, *c),
            bm_ids(r).finite(),
        decreases *c,
    {
        match c {
            FilterCondition::Eq(f, v) => {
                let key = canonical_key(v);
                self.get_bitmap(f.as_str(), &key)
            },
            FilterCondition::Ne(f, v) => {
                let key = canonical_key(v);
                let eq = self.get_bitmap(f.as_str(), &key);
                bm_sub(&self.all_ids, &eq)
            },
            FilterCondition::Gt(f, v) => {
                let t = Self::operand_token(v);
                self.range_bitmap(f.as_str(), &t, 1, 1)
            },
            FilterCondition::Gte(f, v) => {
                let t = Self::operand_token(v);
                self.range_bitmap(f.as_str(), &t, 0, 1)
            },
            FilterCondition::Lt(f, v) => {
                let t = Self::operand_token(v);
                self.range_bitmap(f.as_str(), &t, -1, -1)
            },
            FilterCondition::Lte(f, v) => {
                let t = Self::operand_token(v);
                self.range_bitmap(f.as_str(), &t, -1, 0)
            },
            FilterCondition::In(f, vs) => {
                let n = vs.len();
                let mut acc = bm_new();
                let mut i: usize = 0;
                while i < n
                    invariant
                        0 <= i <= n,
                        n == vs@.len(),
                        self.wf(),
                        bm_ids(acc).finite(),
                        in_union(*self, f@, vs@, 0) == bm_ids(acc).union(
                            in_union(*self, f@, vs@, i as int),
                        ),
                    decreases n - i,
                {
                    let key = canonical_key(&vs[i]);
                    let b = self.get_bitmap(f.as_str(), &key);
                    let merged = bm_or(&acc, &b);
                    proof {
                        assert(in_union(*self, f@, vs@, 0) =~= bm_ids(merged).union(
                            in_union(*self, f@, vs@, i + 1),
                        ));
                    }
                    acc = merged;
                    i += 1;
                }
                proof {
                    assert(in_union(*self, f@, vs@, n as int) =~= Set::<u32>::empty());
                    assert(in_union(*self, f@, vs@, 0) =~= bm_ids(acc));
                }
                acc
            },
            FilterCondition::Contains(f, _) => self.field_union_bitmap(f.as_str()),
            FilterCondition::Exists(f) => self.field_union_bitmap(f.as_str()),
            FilterCondition::And(a, b) => {
                let ra = self.eval_condition(a);
                let rb = self.eval_condition(b);
                bm_and(&ra, &rb)
            },
            FilterCondition::Or(a, b) => {
                let ra = self.eval_condition(a);
                let rb = self.eval_condition(b);
                bm_or(&ra, &rb)
            },
            FilterCondition::Not(a) => {
                let ra = self.eval_condition(a);
                bm_sub(&self.all_ids, &ra)
            },
        }
    }

    /// Evaluates a filter to the bitmap of matching identifiers.
    pub fn query(&self, filter: &Filter) -> (r: RoaringBitmap)
        requires
            self.wf(),
        ensures
            bm_ids(r) == eval_cond(*self, filter.condition),
            bm_ids(r).finite(),
    {
        self.eval_condition(&filter.condition)
    }
}

// --- the filter-consistency law ---
//
// For filters built from equality, membership, presence and the boolean
// connectives, the set-algebra evaluation over the index coincides exactly
// with evaluating the filter against every indexed payload — provided the
// index reflects the payloads (which indexing each payload under its
// identifier exactly once produces) and no two distinct values of a tested
// field share a serialized key.

/// Whether the condition uses only the operators the exactness law
/// covers: equality, inequality, membership, presence, numeric ranges
/// with a number operand, and the boolean connectives.
pub open spec fn exact_ops(c: FilterCondition) -> bool
    decreases c,
{
    match c {
        FilterCondition::Eq(_, _) => true,
        FilterCondition::Ne(_, _) => true,
        FilterCondition::In(_, _) => true,
        FilterCondition::Exists(_) => true,
        FilterCondition::Gt(_, v) => vview(v) is Num,
        FilterCondition::Gte(_, v) => vview(v) is Num,
        FilterCondition::Lt(_, v) => vview(v) is Num,
        FilterCondition::Lte(_, v) => vview(v) is Num,
        FilterCondition::And(a, b) => exact_ops(*a) && exact_ops(*b),
        FilterCondition::Or(a, b) => exact_ops(*a) && exact_ops(*b),
        FilterCondition::Not(a) => exact_ops(*a),
        _ => false,
    }
}

/// The payload indexed under `id` binds field `f` to exactly `v`.
pub open spec fn hist_eq(
    hist: Map<u32, Seq<(Seq<char>, SpecValue)>>,
    f: Seq<char>,
    v: SpecValue,
    id: u32,
) -> bool {
    hist.dom().contains(id) && plookup(hist[id], f) == Some(v)
}

/// The payload indexed under `id` binds field `f` to a value with key `k`.
pub open spec fn hist_has_key(
    hist: Map<u32, Seq<(Seq<char>, SpecValue)>>,
    f: Seq<char>,
    k: Seq<u8>,
    id: u32,
) -> bool {
    hist.dom().contains(id) && has_kv(hist[id], f, k, hist[id].len() as int)
}

/// The payload indexed under `id` binds field `f` at all.
pub open spec fn hist_has_field(
    hist: Map<u32, Seq<(Seq<char>, SpecValue)>>,
    f: Seq<char>,
    id: u32,
) -> bool {
    hist.dom().contains(id) && plookup(hist[id], f) is Some
}

/// The condition matches the payload indexed under `id`.
pub open spec fn hist_matches(
    hist: Map<u32, Seq<(Seq<char>, SpecValue)>>,
    c: FilterCondition,
    id: u32,
) -> bool {
    hist.dom().contains(id) && cond_matches(c, hist[id])
}

/// No indexed value of field `f` collides with `v` on the serialized key
/// without being equal to it.
pub open spec fn key_faithful_at(
    hist: Map<u32, Seq<(Seq<char>, SpecValue)>>,
    f: Seq<char>,
    v: SpecValue,
) -> bool {
    forall|id: u32, u: SpecValue|
        hist.dom().contains(id) && #[trigger] plookup(hist[id], f) == Some(u) ==> ((#[trigger] key_of(u)
            == key_of(v)) == (u == v))
}

/// Key-faithfulness for every operand the condition tests.
pub open spec fn key_faithful(
    hist: Map<u32, Seq<(Seq<char>, SpecValue)>>,
    c: FilterCondition,
) -> bool
    decreases c,
{
    match c {
        FilterCondition::Eq(f, v) => key_faithful_at(hist, f@, vview(v)),
        FilterCondition::Ne(f, v) => key_faithful_at(hist, f@, vview(v)),
        FilterCondition::In(f, vs) => forall|i: int|
            0 <= i < vs@.len() ==> key_faithful_at(hist, f@, vview(#[trigger] vs@[i])),
        FilterCondition::And(a, b) => key_faithful(hist, *a) && key_faithful(hist, *b),
        FilterCondition::Or(a, b) => key_faithful(hist, *a) && key_faithful(hist, *b),
        FilterCondition::Not(a) => key_faithful(hist, *a),
        _ => true,
    }
}

/// The index reflects the history: the identifiers are the history's
/// domain, each per-field-and-key set holds exactly the identifiers whose
/// payload carries that field with that key, and each field union holds
/// exactly the identifiers whose payload carries the field.
pub open spec fn reflects(idx: BitmapIndex, hist: Map<u32, Seq<(Seq<char>, SpecValue)>>) -> bool {
    &&& idx.all_set() == hist.dom()
    &&& hist.dom().finite()
    &&& (forall|id: u32| hist.dom().contains(id) ==> keys_unique(#[trigger] hist[id]))
    &&& (forall|f: Seq<char>, k: Seq<u8>|
        #[trigger] idx.get_set(f, k) == Set::new(|id: u32| hist_has_key(hist, f, k, id)))
    &&& (forall|f: Seq<char>|
        (match #[trigger] field_lookup(idx.view_fields(), f) {
            Some(ks) => keys_union(ks),
            None => Set::<u32>::empty(),
        }) == Set::new(|id: u32| hist_has_field(hist, f, id)))
}

/// With unique field names, carrying `(f, k)` is the same as the first
/// binding of `f` having key `k`.
proof fn lemma_has_kv_plookup(fields: Seq<(Seq<char>, SpecValue)>, f: Seq<char>, k: Seq<u8>)
    requires
        keys_unique(fields),
    ensures
        has_kv(fields, f, k, fields.len() as int) == (match plookup(fields, f) {
            Some(u) => key_of(u) == k,
            None => false,
        }),
    decreases fields.len(),
{
    if fields.len() > 0 {
        assert(keys_unique(fields.drop_first())) by {
            assert(forall|i: int|
                0 <= i < fields.drop_first().len() ==> #[trigger] fields.drop_first()[i]
                    == fields[i + 1]);
        }
        lemma_has_kv_plookup(fields.drop_first(), f, k);
        if fields[0].0 == f {
            if key_of(fields[0].1) == k {
                assert(has_kv(fields, f, k, fields.len() as int));
            } else {
                if has_kv(fields, f, k, fields.len() as int) {
                    let i = choose|i: int|
                        0 <= i < fields.len() && (#[trigger] fields[i]).0 == f && key_of(
                            fields[i].1,
                        ) == k;
                    assert(i != 0);
                    assert(fields[0].0 == fields[i].0);
                    assert(false);
                }
            }
        } else {
            assert(has_kv(fields, f, k, fields.len() as int) == has_kv(
                fields.drop_first(),
                f,
                k,
                fields.drop_first().len() as int,
            )) by {
                if has_kv(fields, f, k, fields.len() as int) {
                    let i = choose|i: int|
                        0 <= i < fields.len() && (#[trigger] fields[i]).0 == f && key_of(
                            fields[i].1,
                        ) == k;
                    assert(i != 0);
                    assert(fields.drop_first()[i - 1] == fields[i]);
                    assert(has_kv(fields.drop_first(), f, k, fields.drop_first().len() as int));
                }
                if has_kv(fields.drop_first(), f, k, fields.drop_first().len() as int) {
                    let i = choose|i: int|
                        0 <= i < fields.drop_first().len() && (
                        #[trigger] fields.drop_first()[i]).0 == f && key_of(
                            fields.drop_first()[i].1,
                        ) == k;
                    assert(fields[i + 1] == fields.drop_first()[i]);
                    assert(has_kv(fields, f, k, fields.len() as int));
                }
            }
        }
    } else {
        if has_kv(fields, f, k, 0) {
            let i = choose|i: int|
                0 <= i < 0 && i < fields.len() && (#[trigger] fields[i]).0 == f && key_of(
                    fields[i].1,
                ) == k;
            assert(false);
        }
    }
}

/// The equality case of the law, shared by the membership case.
/// A successful field lookup names an entry of the list.
proof fn lemma_field_lookup_member(
    fs: Seq<(Seq<char>, Seq<(Seq<u8>, RoaringBitmap)>)>,
    f: Seq<char>,
)
    ensures
        field_lookup(fs, f) matches Some(ks) ==> exists|i: int|
            0 <= i < fs.len() && (#[trigger] fs[i]).0 == f && fs[i].1 == ks,
    decreases fs.len(),
{
    if fs.len() > 0 {
        if fs[0].0 == f {
            assert(fs[0].0 == f && fs[0].1 == field_lookup(fs, f).unwrap());
        } else {
            lemma_field_lookup_member(fs.drop_first(), f);
            if field_lookup(fs.drop_first(), f) is Some {
                let ks = field_lookup(fs.drop_first(), f).unwrap();
                let i = choose|i: int|
                    0 <= i < fs.drop_first().len() && (#[trigger] fs.drop_first()[i]).0 == f
                        && fs.drop_first()[i].1 == ks;
                assert(fs[i + 1].0 == f && fs[i + 1].1 == ks);
            }
        }
    }
}

/// Membership in a range union: some key of the list compares into the
/// window and its set holds the identifier.
proof fn lemma_range_member(
    ks: Seq<(Seq<u8>, RoaringBitmap)>,
    t: Seq<u8>,
    lo: int,
    hi: int,
    id: u32,
)
    ensures
        range_union(ks, t, lo, hi).contains(id) == exists|i: int|
            0 <= i < ks.len() && (match num_cmp((#[trigger] ks[i]).0, t) {
                Some(c) => lo <= c <= hi,
                None => false,
            }) && bm_ids(ks[i].1).contains(id),
    decreases ks.len(),
{
    if ks.len() > 0 {
        lemma_range_member(ks.drop_first(), t, lo, hi, id);
        assert(forall|i: int|
            0 <= i < ks.drop_first().len() ==> #[trigger] ks.drop_first()[i] == ks[i + 1]);
        let head_in = match num_cmp(ks[0].0, t) {
            Some(c) => lo <= c <= hi,
            None => false,
        } && bm_ids(ks[0].1).contains(id);
        if range_union(ks, t, lo, hi).contains(id) {
            if !head_in {
                let i = choose|i: int|
                    0 <= i < ks.drop_first().len() && (match num_cmp(
                        (#[trigger] ks.drop_first()[i]).0,
                        t,
                    ) {
                        Some(c) => lo <= c <= hi,
                        None => false,
                    }) && bm_ids(ks.drop_first()[i].1).contains(id);
                assert(0 <= i + 1 < ks.len());
            }
        } else {
            if exists|i: int|
                0 <= i < ks.len() && (match num_cmp((#[trigger] ks[i]).0, t) {
                    Some(c) => lo <= c <= hi,
                    None => false,
                }) && bm_ids(ks[i].1).contains(id) {
                let i = choose|i: int|
                    0 <= i < ks.len() && (match num_cmp((#[trigger] ks[i]).0, t) {
                        Some(c) => lo <= c <= hi,
                        None => false,
                    }) && bm_ids(ks[i].1).contains(id);
                if i > 0 {
                    assert(ks.drop_first()[i - 1] == ks[i]);
                }
                assert(false);
            }
        }
    }
}

/// The key of anything but a number never compares as a number.
proof fn lemma_key_not_num(u: SpecValue, b: Seq<u8>)
    requires
        !(u is Num),
    ensures
        num_cmp(key_of(u), b) is None,
{
    let k = key_of(u);
    match u {
        SpecValue::Str(sv) => {
            assert(k[0] == 115);
        },
        SpecValue::Bool(bb) => {
            if bb {
                assert(k[0] == 116);
            } else {
                assert(k[0] == 102);
            }
        },
        SpecValue::Null => {
            assert(k[0] == 110);
        },
        SpecValue::Num(_) => {},
    }
    assert(k.len() >= 1 && k[0] != 45 && !(48 <= k[0] <= 57));
    assert(crate::value::num_shape(k) is None) by {
        let off: int = 0;
        let pp = crate::value::find_dot(k, 0);
        crate::value::lemma_find_dot_bytes(k, 0, pp);
        if pp == k.len() {
            assert(!crate::value::digits_in(k, 0, k.len() as int));
        } else {
            assert(pp >= 1);
            assert(!crate::value::digits_in(k, 0, pp));
        }
    }
}

/// The range case: with the index reflecting the history, a numeric range
/// window selects exactly the identifiers whose field value is a number
/// comparing into the window.
proof fn lemma_eval_range(
    idx: BitmapIndex,
    hist: Map<u32, Seq<(Seq<char>, SpecValue)>>,
    f: Seq<char>,
    b: Seq<u8>,
    lo: int,
    hi: int,
)
    requires
        reflects(idx, hist),
        idx.wf(),
    ensures
        (match field_lookup(idx.view_fields(), f) {
            Some(ks) => range_union(ks, b, lo, hi),
            None => Set::<u32>::empty(),
        }) == Set::new(
            |id: u32|
                hist.dom().contains(id) && (match plookup(hist[id], f) {
                    Some(x) => crate::filter::num_matches(x, SpecValue::Num(b), lo, hi),
                    None => false,
                }),
        ),
{
    let lhs = (match field_lookup(idx.view_fields(), f) {
        Some(ks) => range_union(ks, b, lo, hi),
        None => Set::<u32>::empty(),
    });
    let rhs = Set::new(
        |id: u32|
            hist.dom().contains(id) && (match plookup(hist[id], f) {
                Some(x) => crate::filter::num_matches(x, SpecValue::Num(b), lo, hi),
                None => false,
            }),
    );
    assert forall|id: u32| lhs.contains(id) == rhs.contains(id) by {
        if lhs.contains(id) {
            let ks = field_lookup(idx.view_fields(), f).unwrap();
            lemma_field_lookup_member(idx.view_fields(), f);
            let fi = choose|fi: int|
                0 <= fi < idx.view_fields().len() && (#[trigger] idx.view_fields()[fi]).0 == f
                    && idx.view_fields()[fi].1 == ks;
            lemma_range_member(ks, b, lo, hi, id);
            let i = choose|i: int|
                0 <= i < ks.len() && (match num_cmp((#[trigger] ks[i]).0, b) {
                    Some(c) => lo <= c <= hi,
                    None => false,
                }) && bm_ids(ks[i].1).contains(id);
            assert(forall|a: int| 0 <= a < i ==> (#[trigger] ks[a]).0 != ks[i].0) by {
                assert(forall|a: int|
                    0 <= a < ks.len() ==> #[trigger] ks[a] == idx.view_fields()[fi].1[a]);
            }
            lemma_key_lookup_at(ks, i);
            assert(idx.get_set(f, ks[i].0).contains(id));
            assert(hist_has_key(hist, f, ks[i].0, id));
            lemma_has_kv_plookup(hist[id], f, ks[i].0);
            let u = plookup(hist[id], f).unwrap();
            assert(key_of(u) == ks[i].0);
            if u is Num {
                assert(key_of(u) == u->Num_0);
            } else {
                lemma_key_not_num(u, b);
                assert(false);
            }
            assert(rhs.contains(id));
        }
        if rhs.contains(id) {
            let u = plookup(hist[id], f).unwrap();
            let a = u->Num_0;
            assert(key_of(u) == a);
            lemma_has_kv_plookup(hist[id], f, a);
            assert(hist_has_key(hist, f, a, id));
            assert(idx.get_set(f, a).contains(id));
            let ks = field_lookup(idx.view_fields(), f).unwrap();
            lemma_field_lookup_member(idx.view_fields(), f);
            let fi = choose|fi: int|
                0 <= fi < idx.view_fields().len() && (#[trigger] idx.view_fields()[fi]).0 == f
                    && idx.view_fields()[fi].1 == ks;
            lemma_key_lookup_member(ks, a);
            let i = choose|i: int| 0 <= i < ks.len() && (#[trigger] ks[i]).0 == a;
            assert(forall|x: int| 0 <= x < i ==> (#[trigger] ks[x]).0 != ks[i].0) by {
                assert(forall|x: int|
                    0 <= x < ks.len() ==> #[trigger] ks[x] == idx.view_fields()[fi].1[x]);
            }
            lemma_key_lookup_at(ks, i);
            assert(bm_ids(ks[i].1).contains(id));
            lemma_range_member(ks, b, lo, hi, id);
            assert(lhs.contains(id));
        }
    }
    assert(lhs =~= rhs);
}

proof fn lemma_eval_eq(
    idx: BitmapIndex,
    hist: Map<u32, Seq<(Seq<char>, SpecValue)>>,
    f: Seq<char>,
    v: SpecValue,
)
    requires
        reflects(idx, hist),
        key_faithful_at(hist, f, v),
    ensures
        idx.get_set(f, key_of(v)) == Set::new(|id: u32| hist_eq(hist, f, v, id)),
{
    let lhs = idx.get_set(f, key_of(v));
    let rhs = Set::new(|id: u32| hist_eq(hist, f, v, id));
    assert forall|id: u32| lhs.contains(id) == rhs.contains(id) by {
        if hist.dom().contains(id) {
            lemma_has_kv_plookup(hist[id], f, key_of(v));
        }
    }
    assert(lhs =~= rhs);
}

/// The membership case, element by element.
proof fn lemma_eval_in(
    idx: BitmapIndex,
    hist: Map<u32, Seq<(Seq<char>, SpecValue)>>,
    f: String,
    vs: Seq<Value>,
    i: int,
)
    requires
        reflects(idx, hist),
        0 <= i <= vs.len(),
        forall|a: int| 0 <= a < vs.len() ==> key_faithful_at(hist, f@, vview(#[trigger] vs[a])),
    ensures
        in_union(idx, f@, vs, i) == Set::new(|id: u32| hist_matches_in(hist, f@, vs, i, id)),
    decreases vs.len() - i,
{
    let rhs = Set::new(|id: u32| hist_matches_in(hist, f@, vs, i, id));
    if i >= vs.len() {
        assert(in_union(idx, f@, vs, i) =~= rhs);
    } else {
        lemma_eval_eq(idx, hist, f@, vview(vs[i]));
        lemma_eval_in(idx, hist, f, vs, i + 1);
        assert forall|id: u32| in_union(idx, f@, vs, i).contains(id) == rhs.contains(id) by {
            if rhs.contains(id) {
                let a = choose|a: int|
                    i <= a < vs.len() && plookup(hist[id], f@) == Some(vview(#[trigger] vs[a]));
                if a == i {
                    assert(hist_eq(hist, f@, vview(vs[i]), id));
                    assert(idx.get_set(f@, key_of(vview(vs[i]))).contains(id));
                } else {
                    assert(hist_matches_in(hist, f@, vs, i + 1, id));
                    assert(in_union(idx, f@, vs, i + 1).contains(id));
                }
            }
            if in_union(idx, f@, vs, i).contains(id) {
                if idx.get_set(f@, key_of(vview(vs[i]))).contains(id) {
                    assert(hist_eq(hist, f@, vview(vs[i]), id));
                } else {
                    assert(hist_matches_in(hist, f@, vs, i + 1, id));
                    let a = choose|a: int|
                        i + 1 <= a < vs.len() && plookup(hist[id], f@) == Some(
                            vview(#[trigger] vs[a]),
                        );
                    assert(hist_matches_in(hist, f@, vs, i, id));
                }
            }
        }
        assert(in_union(idx, f@, vs, i) =~= rhs);
    }
}

/// The payload indexed under `id` binds field `f` to one of the listed
/// values, from position `i` on.
pub open spec fn hist_matches_in(
    hist: Map<u32, Seq<(Seq<char>, SpecValue)>>,
    f: Seq<char>,
    vs: Seq<Value>,
    i: int,
    id: u32,
) -> bool {
    hist.dom().contains(id) && exists|a: int|
        i <= a < vs.len() && plookup(hist[id], f) == Some(vview(#[trigger] vs[a]))
}

/// The filter-consistency law: over the covered operators, and with
/// key-faithful operands, the set-algebra evaluation equals the set of
/// indexed identifiers whose payload the condition matches.
pub proof fn lemma_eval_matches(
    idx: BitmapIndex,
    hist: Map<u32, Seq<(Seq<char>, SpecValue)>>,
    c: FilterCondition,
)
    requires
        reflects(idx, hist),
        idx.wf(),
        exact_ops(c),
        key_faithful(hist, c),
    ensures
        eval_cond(idx, c) == Set::new(|id: u32| hist_matches(hist, c, id)),
    decreases c,
{
    let rhs = Set::new(|id: u32| hist_matches(hist, c, id));
    match c {
        FilterCondition::Eq(f, v) => {
            lemma_eval_eq(idx, hist, f@, vview(v));
            assert(eval_cond(idx, c) =~= rhs);
        },
        FilterCondition::Ne(f, v) => {
            lemma_eval_eq(idx, hist, f@, vview(v));
            assert(eval_cond(idx, c) =~= rhs);
        },
        FilterCondition::In(f, vs) => {
            lemma_eval_in(idx, hist, f, vs@, 0);
            assert(eval_cond(idx, c) =~= rhs);
        },
        FilterCondition::Exists(f) => {
            assert(eval_cond(idx, c) =~= rhs);
        },
        FilterCondition::And(a, b) => {
            lemma_eval_matches(idx, hist, *a);
            lemma_eval_matches(idx, hist, *b);
            assert(eval_cond(idx, c) =~= rhs);
        },
        FilterCondition::Or(a, b) => {
            lemma_eval_matches(idx, hist, *a);
            lemma_eval_matches(idx, hist, *b);
            assert(eval_cond(idx, c) =~= rhs);
        },
        FilterCondition::Not(a) => {
            lemma_eval_matches(idx, hist, *a);
            assert(eval_cond(idx, c) =~= rhs);
        },
        FilterCondition::Gt(f, v) => {
            lemma_eval_range(idx, hist, f@, vview(v)->Num_0, 1, 1);
            assert(eval_cond(idx, c) =~= rhs);
        },
        FilterCondition::Gte(f, v) => {
            lemma_eval_range(idx, hist, f@, vview(v)->Num_0, 0, 1);
            assert(eval_cond(idx, c) =~= rhs);
        },
        FilterCondition::Lt(f, v) => {
            lemma_eval_range(idx, hist, f@, vview(v)->Num_0, -1, -1);
            assert(eval_cond(idx, c) =~= rhs);
        },
        FilterCondition::Lte(f, v) => {
            lemma_eval_range(idx, hist, f@, vview(v)->Num_0, -1, 0);
            assert(eval_cond(idx, c) =~= rhs);
        },
        _ => {},
    }
}

/// The conditions whose evaluation can only grow with the matched set:
/// everything but negation and inequality, with substring tests allowed.
/// A range operand must be a number.
pub open spec fn monotone_ops(c: FilterCondition) -> bool
    decreases c,
{
    match c {
        FilterCondition::Eq(_, _) => true,
        FilterCondition::In(_, _) => true,
        FilterCondition::Exists(_) => true,
        FilterCondition::Contains(_, _) => true,
        FilterCondition::Gt(_, v) => vview(v) is Num,
        FilterCondition::Gte(_, v) => vview(v) is Num,
        FilterCondition::Lt(_, v) => vview(v) is Num,
        FilterCondition::Lte(_, v) => vview(v) is Num,
        FilterCondition::And(a, b) => monotone_ops(*a) && monotone_ops(*b),
        FilterCondition::Or(a, b) => monotone_ops(*a) && monotone_ops(*b),
        _ => false,
    }
}

/// Over-approximation for filters without negation: every identifier whose
/// payload matches is in the evaluated set. A substring test degrades to
/// field presence, so the set may hold more; callers that use it re-check
/// the survivors against the payloads.
pub proof fn lemma_eval_superset(
    idx: BitmapIndex,
    hist: Map<u32, Seq<(Seq<char>, SpecValue)>>,
    c: FilterCondition,
)
    requires
        reflects(idx, hist),
        idx.wf(),
        monotone_ops(c),
        key_faithful(hist, c),
    ensures
        Set::new(|id: u32| hist_matches(hist, c, id)).subset_of(eval_cond(idx, c)),
    decreases c,
{
    match c {
        FilterCondition::Contains(f, _) => {
            assert((match field_lookup(idx.view_fields(), f@) {
                Some(ks) => keys_union(ks),
                None => Set::<u32>::empty(),
            }) == Set::new(|id2: u32| hist_has_field(hist, f@, id2)));
            assert forall|id: u32| #[trigger] hist_matches(hist, c, id) implies eval_cond(
                idx,
                c,
            ).contains(id) by {
                assert(hist_has_field(hist, f@, id));
                assert(Set::new(|id2: u32| hist_has_field(hist, f@, id2)).contains(id));
            }
        },
        FilterCondition::And(a, b) => {
            lemma_eval_superset(idx, hist, *a);
            lemma_eval_superset(idx, hist, *b);
            assert forall|id: u32| hist_matches(hist, c, id) implies eval_cond(idx,
            c).contains(id) by {
                assert(hist_matches(hist, *a, id));
                assert(hist_matches(hist, *b, id));
                assert(Set::new(|id2: u32| hist_matches(hist, *a, id2)).contains(id));
                assert(Set::new(|id2: u32| hist_matches(hist, *b, id2)).contains(id));
            }
        },
        FilterCondition::Or(a, b) => {
            lemma_eval_superset(idx, hist, *a);
            lemma_eval_superset(idx, hist, *b);
            assert forall|id: u32| hist_matches(hist, c, id) implies eval_cond(idx,
            c).contains(id) by {
                if hist_matches(hist, *a, id) {
                    assert(Set::new(|id2: u32| hist_matches(hist, *a, id2)).contains(id));
                } else {
                    assert(hist_matches(hist, *b, id));
                    assert(Set::new(|id2: u32| hist_matches(hist, *b, id2)).contains(id));
                }
            }
        },
        FilterCondition::Eq(_, _) => {
            lemma_eval_matches(idx, hist, c);
        },
        FilterCondition::In(_, _) => {
            lemma_eval_matches(idx, hist, c);
        },
        FilterCondition::Exists(_) => {
            lemma_eval_matches(idx, hist, c);
        },
        FilterCondition::Gt(_, _) => {
            lemma_eval_matches(idx, hist, c);
        },
        FilterCondition::Gte(_, _) => {
            lemma_eval_matches(idx, hist, c);
        },
        FilterCondition::Lt(_, _) => {
            lemma_eval_matches(idx, hist, c);
        },
        FilterCondition::Lte(_, _) => {
            lemma_eval_matches(idx, hist, c);
        },
        _ => {},
    }
}

} // verus!
