//! Exact nearest-neighbor search over all stored vectors.
//!
//! Search computes the distance to every stored vector that passes the
//! filter, sorts ascending by the distance order key, and keeps the first
//! `k`. The contract pins the result down: it holds distinct matching
//! identifiers with their exact distances, sorted, and nothing left out
//! compares closer than the furthest result.

use vstd::prelude::*;
use crate::dist::{DistanceMetric, spec_metric};
use crate::payload::Payload;
use crate::value::SpecValue;
use crate::filter::{Filter, filter_matches};
use crate::error::Error;
use crate::spec_sort_key;

verus! {

/// One search hit.
#[derive(Debug)]
pub struct SearchResult {
    /// Identifier of the matched vector.
    pub id: u64,
    /// Distance from the query, as a scalar bit pattern; lower order key
    /// means closer.
    pub distance: u32,
    /// The matched vector's payload.
    pub payload: Option<Payload>,
}

impl SearchResult {
    /// A search hit from its parts.
    pub fn new(id: u64, distance: u32, payload: Option<Payload>) -> (r: SearchResult)
        ensures
            r.id == id,
            r.distance == distance,
            r.payload == payload,
    {
        SearchResult { id, distance, payload }
    }
}

/// The shape of one stored entry.
pub struct BfEntry {
    /// Identifier.
    pub id: u64,
    /// Vector bit patterns.
    pub vector: Seq<u32>,
    /// Payload fields.
    pub payload: Seq<(Seq<char>, SpecValue)>,
}

/// View of one stored entry.
pub open spec fn bf_view(e: (u64, Vec<u32>, Payload)) -> BfEntry {
    BfEntry { id: e.0, vector: e.1@, payload: e.2.view_fields() }
}

/// View of the entry list.
pub open spec fn bf_views(s: Seq<(u64, Vec<u32>, Payload)>) -> Seq<BfEntry> {
    s.map_values(|e: (u64, Vec<u32>, Payload)| bf_view(e))
}

/// The entry holding `id`, if any.
pub open spec fn bf_lookup(s: Seq<BfEntry>, id: u64) -> Option<BfEntry>
    decreases s.len(),
{
    if s.len() == 0 {
        None
    } else if s[0].id == id {
        Some(s[0])
    } else {
        bf_lookup(s.drop_first(), id)
    }
}

/// Whether an entry passes the optional filter.
pub open spec fn entry_passes(e: BfEntry, f: Option<Filter>) -> bool {
    match f {
        Some(ff) => filter_matches(ff, e.payload),
        None => true,
    }
}

/// Number of entries passing the filter.
pub open spec fn match_count(s: Seq<BfEntry>, f: Option<Filter>) -> nat
    decreases s.len(),
{
    if s.len() == 0 {
        0nat
    } else {
        match_count(s.drop_last(), f) + (if entry_passes(s.last(), f) {
            1nat
        } else {
            0nat
        })
    }
}

/// What a top-`k` search result promises over the entry list `s`: the
/// results are sorted ascending by distance order key, carry distinct
/// matching identifiers with their exact distances and payloads, are as many
/// as there are matches up to `k`, and nothing left out compares closer than
/// the furthest result.
pub open spec fn search_post(
    r: Seq<SearchResult>,
    s: Seq<BfEntry>,
    metric: DistanceMetric,
    q: Seq<u32>,
    k: int,
    f: Option<Filter>,
) -> bool {
    &&& r.len() == (if match_count(s, f) < k {
        match_count(s, f)
    } else {
        k as nat
    })
    &&& (forall|i: int, j: int|
        0 <= i < j < r.len() ==> spec_sort_key(#[trigger] r[i].distance) <= spec_sort_key(
            #[trigger] r[j].distance,
        ))
    &&& (forall|i: int, j: int|
        0 <= i < j < r.len() ==> (#[trigger] r[i]).id != (#[trigger] r[j]).id)
    &&& (forall|i: int|
        0 <= i < r.len() ==> exists|m: int|
            0 <= m < s.len() && (#[trigger] r[i]).id == (#[trigger] s[m]).id && entry_passes(
                s[m],
                f,
            ) && r[i].distance == spec_metric(metric, q, s[m].vector) && (r[i].payload
                matches Some(p) && p.view_fields() == s[m].payload))
    &&& (forall|m: int|
        0 <= m < s.len() && entry_passes(#[trigger] s[m], f) && (forall|i: int|
            0 <= i < r.len() ==> (#[trigger] r[i]).id != s[m].id) && r.len() > 0
            ==> spec_sort_key(spec_metric(metric, q, s[m].vector)) >= spec_sort_key(
            r[r.len() - 1].distance,
        ))
}

/// The exact index: every stored vector is compared on search.
#[derive(Debug)]
pub struct BruteForceIndex {
    dimension: usize,
    metric: DistanceMetric,
    entries: Vec<(u64, Vec<u32>, Payload)>,
    next_id: u64,
}

impl BruteForceIndex {
    /// View: the stored entries in insertion order.
    pub closed spec fn view_entries(&self) -> Seq<BfEntry> {
        bf_views(self.entries@)
    }

    /// The configured dimension.
    pub closed spec fn spec_dimension(&self) -> usize {
        self.dimension
    }

    /// The configured metric.
    pub closed spec fn spec_metric_of(&self) -> DistanceMetric {
        self.metric
    }

    /// The next automatic identifier.
    pub closed spec fn spec_next_id(&self) -> u64 {
        self.next_id
    }

    /// Well-formed index: distinct identifiers, vectors of the configured
    /// dimension, well-formed payloads, a machine bound on the dimension,
    /// and an identifier counter above every stored identifier.
    pub open spec fn wf(&self) -> bool {
        &&& (forall|i: int, j: int|
            0 <= i < j < self.view_entries().len() ==> (#[trigger] self.view_entries()[i]).id != (
            #[trigger] self.view_entries()[j]).id)
        &&& (forall|i: int|
            0 <= i < self.view_entries().len() ==> (#[trigger] self.view_entries()[i]).vector.len()
                == self.spec_dimension())
        &&& (forall|i: int|
            0 <= i < self.view_entries().len() ==> crate::payload::keys_unique(
                (#[trigger] self.view_entries()[i]).payload,
            ) && crate::payload::values_wf(self.view_entries()[i].payload))
        &&& self.spec_dimension() < 0x8_0000_0000_0000
        &&& (forall|i: int|
            0 <= i < self.view_entries().len() ==> ((#[trigger] self.view_entries()[i]).id
                < self.spec_next_id() || self.view_entries()[i].id == u64::MAX))
        &&& self.spec_next_id() >= 1
    }

    /// An empty index with the given metric and dimension.
    pub fn new(metric: DistanceMetric, dimension: usize) -> (r: BruteForceIndex)
        requires
            dimension < 0x8_0000_0000_0000,
        ensures
            r.view_entries() == Seq::<BfEntry>::empty(),
            r.spec_dimension() == dimension,
            r.spec_metric_of() == metric,
            r.spec_next_id() == 1,
            r.wf(),
    {
        let r = BruteForceIndex { dimension, metric, entries: Vec::new(), next_id: 1 };
        proof {
            assert(r.view_entries() =~= Seq::<BfEntry>::empty());
        }
        r
    }

    /// The configured dimension.
    pub fn dimension(&self) -> (r: usize)
        ensures
            r == self.spec_dimension(),
    {
        self.dimension
    }

    /// The configured metric.
    pub fn metric(&self) -> (r: DistanceMetric)
        ensures
            r == self.spec_metric_of(),
    {
        self.metric
    }

    /// Number of stored vectors.
    pub fn len(&self) -> (r: usize)
        ensures
            r == self.view_entries().len(),
    {
        self.entries.len()
    }

    /// Whether nothing is stored.
    pub fn is_empty(&self) -> (r: bool)
        ensures
            r == (self.view_entries().len() == 0),
    {
        self.entries.len() == 0
    }

    /// Index of the entry holding `id`, executable.
    fn find(&self, id: u64) -> (r: Option<usize>)
        ensures
            match r {
                Some(i) => i < self.view_entries().len() && self.view_entries()[i as int].id == id
                    && bf_lookup(self.view_entries(), id) == Some(self.view_entries()[i as int]),
                None => bf_lookup(self.view_entries(), id) is None && (forall|i: int|
                    0 <= i < self.view_entries().len() ==> (#[trigger] self.view_entries()[i]).id
                        != id),
            },
    {
        let n = self.entries.len();
        let mut i: usize = 0;
        proof {
            assert(self.view_entries().skip(0) =~= self.view_entries());
        }
        while i < n
            invariant
                0 <= i <= n,
                n == self.entries@.len(),
                forall|k: int| 0 <= k < i ==> (#[trigger] self.view_entries()[k]).id != id,
                bf_lookup(self.view_entries(), id) == bf_lookup(
                    self.view_entries().skip(i as int),
                    id,
                ),
            decreases n - i,
        {
            proof {
                assert(self.view_entries().skip(i as int)[0] == self.view_entries()[i as int]);
                assert(self.view_entries().skip(i as int).drop_first() =~= self.view_entries().skip(
                    i + 1,
                ));
            }
            if self.entries[i].0 == id {
                return Some(i);
            }
            i += 1;
        }
        proof {
            assert(self.view_entries().skip(n as int).len() == 0);
        }
        None
    }

    /// Stores a vector under `id`. Rejects a vector of the wrong dimension
    /// and an identifier already present.
    pub fn insert(&mut self, id: u64, vector: Vec<u32>, payload: Payload) -> (r: Result<
        (),
        Error,
    >)
        requires
            old(self).wf(),
            payload.wf(),
        ensures
            final(self).wf(),
            final(self).spec_dimension() == old(self).spec_dimension(),
            final(self).spec_metric_of() == old(self).spec_metric_of(),
            match r {
                Ok(()) => {
                    &&& vector@.len() == old(self).spec_dimension()
                    &&& bf_lookup(old(self).view_entries(), id) is None
                    &&& final(self).view_entries() == old(self).view_entries().push(
                        (BfEntry { id: id, vector: vector@, payload: payload.view_fields() }),
                    )
                    &&& final(self).spec_next_id() == (if id == u64::MAX {
                        old(self).spec_next_id()
                    } else if id + 1 > old(self).spec_next_id() {
                        (id + 1) as u64
                    } else {
                        old(self).spec_next_id()
                    })
                },
                Err(e) => {
                    &&& *final(self) == *old(self)
                    &&& (e matches Error::DimensionMismatch { expected, got } ==> expected == old(
                        self,
                    ).spec_dimension() && got == vector@.len() && vector@.len() != old(
                        self,
                    ).spec_dimension())
                    &&& (e is DuplicateId ==> vector@.len() == old(self).spec_dimension()
                        && bf_lookup(old(self).view_entries(), id) is Some)
                    &&& (e is DimensionMismatch || e is DuplicateId)
                },
            },
    {
        if vector.len() != self.dimension {
            return Err(
                Error::DimensionMismatch { expected: self.dimension, got: vector.len() },
            );
        }
        match self.find(id) {
            Some(_) => Err(Error::DuplicateId(id)),
            None => {
                let ghost prev = self.view_entries();
                self.entries.push((id, vector, payload));
                if id != u64::MAX && id + 1 > self.next_id {
                    self.next_id = id + 1;
                }
                proof {
                    assert(self.view_entries() =~= prev.push(
                        BfEntry { id: id, vector: vector@, payload: payload.view_fields() },
                    ));
                }
                Ok(())
            },
        }
    }

    /// Stores a vector under the next automatic identifier and returns it.
    pub fn insert_auto(&mut self, vector: Vec<u32>, payload: Payload) -> (r: Result<u64, Error>)
        requires
            old(self).wf(),
            payload.wf(),
        ensures
            final(self).wf(),
            final(self).spec_dimension() == old(self).spec_dimension(),
            final(self).spec_metric_of() == old(self).spec_metric_of(),
            match r {
                Ok(id) => {
                    &&& id == old(self).spec_next_id()
                    &&& vector@.len() == old(self).spec_dimension()
                    &&& bf_lookup(old(self).view_entries(), id) is None
                    &&& final(self).view_entries() == old(self).view_entries().push(
                        (BfEntry { id: id, vector: vector@, payload: payload.view_fields() }),
                    )
                },
                Err(e) => {
                    &&& *final(self) == *old(self)
                    &&& (e is DimensionMismatch <==> vector@.len() != old(
                        self,
                    ).spec_dimension())
                    &&& (e is DuplicateId ==> vector@.len() == old(self).spec_dimension()
                        && bf_lookup(old(self).view_entries(), old(self).spec_next_id())
                        is Some)
                    &&& (e is DimensionMismatch || e is DuplicateId)
                },
            },
            r is Err ==> vector@.len() != old(self).spec_dimension() || bf_lookup(
                old(self).view_entries(),
                old(self).spec_next_id(),
            ) is Some,
    {
        let id = self.next_id;
        match self.insert(id, vector, payload) {
            Ok(()) => Ok(id),
            Err(e) => Err(e),
        }
    }

    /// Replaces the vector and payload under `id`. Rejects a vector of the
    /// wrong dimension and an identifier not present.
    pub fn update(&mut self, id: u64, vector: Vec<u32>, payload: Payload) -> (r: Result<
        (),
        Error,
    >)
        requires
            old(self).wf(),
            payload.wf(),
        ensures
            final(self).wf(),
            final(self).spec_dimension() == old(self).spec_dimension(),
            final(self).spec_metric_of() == old(self).spec_metric_of(),
            match r {
                Ok(()) => {
                    &&& vector@.len() == old(self).spec_dimension()
                    &&& exists|i: int|
                        0 <= i < old(self).view_entries().len() && (#[trigger] old(
                            self,
                        ).view_entries()[i]).id == id && final(self).view_entries() == old(
                            self,
                        ).view_entries().update(
                            i,
                            (BfEntry { id: id, vector: vector@, payload: payload.view_fields() }),
                        )
                },
                Err(e) => {
                    &&& *final(self) == *old(self)
                    &&& (e matches Error::DimensionMismatch { expected, got } ==> expected == old(
                        self,
                    ).spec_dimension() && got == vector@.len() && vector@.len() != old(
                        self,
                    ).spec_dimension())
                    &&& (e is NotFound ==> vector@.len() == old(self).spec_dimension()
                        && bf_lookup(old(self).view_entries(), id) is None)
                    &&& (e is DimensionMismatch || e is NotFound)
                },
            },
    {
        if vector.len() != self.dimension {
            return Err(
                Error::DimensionMismatch { expected: self.dimension, got: vector.len() },
            );
        }
        match self.find(id) {
            Some(i) => {
                let _ = self.entries.remove(i);
                self.entries.insert(i, (id, vector, payload));
                proof {
                    assert(self.view_entries() =~= old(self).view_entries().update(
                        i as int,
                        BfEntry { id: id, vector: vector@, payload: payload.view_fields() },
                    ));
                }
                Ok(())
            },
            None => Err(Error::NotFound(id)),
        }
    }

    /// Removes the entry under `id`; says whether one was there.
    pub fn delete(&mut self, id: u64) -> (r: bool)
        requires
            old(self).wf(),
        ensures
            final(self).wf(),
            final(self).spec_dimension() == old(self).spec_dimension(),
            final(self).spec_metric_of() == old(self).spec_metric_of(),
            r == (bf_lookup(old(self).view_entries(), id) is Some),
            r ==> exists|i: int|
                0 <= i < old(self).view_entries().len() && (#[trigger] old(
                    self,
                ).view_entries()[i]).id == id && final(self).view_entries() == old(
                    self,
                ).view_entries().remove(i),
            !r ==> *final(self) == *old(self),
    {
        match self.find(id) {
            Some(i) => {
                let _ = self.entries.remove(i);
                proof {
                    assert(self.view_entries() =~= old(self).view_entries().remove(i as int));
                }
                true
            },
            None => false,
        }
    }

    /// The vector and payload under `id`.
    pub fn get(&self, id: u64) -> (r: Option<(&Vec<u32>, &Payload)>)
        ensures
            match r {
                Some((v, p)) => bf_lookup(self.view_entries(), id) matches Some(e) && e.vector
                    == v@ && e.payload == p.view_fields(),
                None => bf_lookup(self.view_entries(), id) is None,
            },
    {
        match self.find(id) {
            Some(i) => Some((&self.entries[i].1, &self.entries[i].2)),
            None => None,
        }
    }

    /// The stored identifiers, in insertion order.
    pub fn ids(&self) -> (r: Vec<u64>)
        ensures
            r@.len() == self.view_entries().len(),
            forall|i: int|
                0 <= i < r@.len() ==> r@[i] == (#[trigger] self.view_entries()[i]).id,
    {
        let n = self.entries.len();
        let mut out: Vec<u64> = Vec::new();
        let mut i: usize = 0;
        while i < n
            invariant
                0 <= i <= n,
                n == self.entries@.len(),
                out@.len() == i,
                forall|k: int|
                    0 <= k < i ==> out@[k] == (#[trigger] self.view_entries()[k]).id,
            decreases n - i,
        {
            out.push(self.entries[i].0);
            i += 1;
        }
        out
    }

    /// Removes everything and resets the identifier counter.
    pub fn clear(&mut self)
        ensures
            final(self).view_entries() == Seq::<BfEntry>::empty(),
            final(self).spec_dimension() == old(self).spec_dimension(),
            final(self).spec_metric_of() == old(self).spec_metric_of(),
            final(self).spec_next_id() == 1,
            old(self).wf() ==> final(self).wf(),
    {
        self.entries.clear();
        self.next_id = 1;
        proof {
            assert(self.view_entries() =~= Seq::<BfEntry>::empty());
        }
    }

    /// The `k` nearest stored vectors to `query` among those passing the
    /// filter, sorted ascending by distance order key. An empty result for a
    /// query of the wrong dimension.
    #[verifier::rlimit(100)]
    pub fn search(&self, query: &[u32], k: usize, filter: Option<Filter>) -> (r: Vec<
        SearchResult,
    >)
        requires
            self.wf(),
        ensures
            query@.len() != self.spec_dimension() ==> r@.len() == 0,
            query@.len() == self.spec_dimension() ==> search_post(
                r@,
                self.view_entries(),
                self.spec_metric_of(),
                query@,
                k as int,
                filter,
            ),
    {
        if query.len() != self.dimension {
            return Vec::new();
        }
        let ghost s = self.view_entries();
        let n = self.entries.len();
        // collect one candidate per matching entry
        let mut cands: Vec<SearchResult> = Vec::new();
        let ghost mut src: Seq<int> = Seq::empty();
        let mut t: usize = 0;
        proof {
            assert(match_count(s.take(0), filter) == 0) by {
                assert(s.take(0).len() == 0);
            }
        }
        while t < n
            invariant
                0 <= t <= n,
                n == self.entries@.len(),
                self.wf(),
                query@.len() == self.spec_dimension(),
                s == self.view_entries(),
                src.len() == cands@.len(),
                cands@.len() == match_count(s.take(t as int), filter),
                forall|i: int, j: int| 0 <= i < j < src.len() ==> src[i] < src[j],
                forall|i: int| 0 <= i < src.len() ==> 0 <= #[trigger] src[i] < t,
                forall|i: int|
                    0 <= i < cands@.len() ==> cand_matches(
                        #[trigger] cands@[i],
                        s,
                        src[i],
                        self.spec_metric_of(),
                        query@,
                        filter,
                    ),
                forall|w: int|
                    0 <= w < t && entry_passes(#[trigger] s[w], filter) ==> exists|c: int|
                        0 <= c < src.len() && src[c] == w,
            decreases n - t,
        {
            proof {
                lemma_match_count_step(s, filter, t as int);
            }
            let passes = match &filter {
                Some(f) => f.matches(&self.entries[t].2),
                None => true,
            };
            if passes {
                let d = self.metric.compute(query, self.entries[t].1.as_slice());
                let sr = SearchResult {
                    id: self.entries[t].0,
                    distance: d,
                    payload: Some(self.entries[t].2.duplicate()),
                };
                proof {
                    assert(bf_view(self.entries@[t as int]) == s[t as int]);
                    assert(cand_matches(
                        sr,
                        s,
                        t as int,
                        self.spec_metric_of(),
                        query@,
                        filter,
                    ));
                    let ghost old_src = src;
                    src = src.push(t as int);
                    assert(forall|c: int| 0 <= c < old_src.len() ==> src[c] == old_src[c]);
                    assert(src[src.len() - 1] == t);
                    assert forall|w: int|
                        0 <= w < t + 1 && entry_passes(#[trigger] s[w], filter) implies exists|
                        c: int,
                    | 0 <= c < src.len() && src[c] == w by {
                        if w == t {
                            assert(src[src.len() - 1] == w);
                        } else {
                            let c = choose|c: int| 0 <= c < old_src.len() && old_src[c] == w;
                            assert(src[c] == w);
                        }
                    }
                }
                cands.push(sr);
            }
            t += 1;
        }
        proof {
            assert(s.take(n as int) =~= s);
        }
        // selection: repeatedly move the closest remaining candidate out
        let m = cands.len();
        let want = if k < m {
            k
        } else {
            m
        };
        let mut out: Vec<SearchResult> = Vec::new();
        let mut used: Vec<bool> = Vec::new();
        let mut z: usize = 0;
        while z < m
            invariant
                0 <= z <= m,
                used@.len() == z,
                forall|i: int| 0 <= i < z ==> !(#[trigger] used@[i]),
            decreases m - z,
        {
            used.push(false);
            z += 1;
        }
        let ghost mut sel: Seq<int> = Seq::empty();
        let mut round: usize = 0;
        while round < want
            invariant
                0 <= round <= want,
                want <= m,
                want == (if k < m {
                    k as int
                } else {
                    m as int
                }),
                m == cands@.len(),
                used@.len() == m,
                out@.len() == round,
                sel.len() == round,
                self.wf(),
                query@.len() == self.spec_dimension(),
                s == self.view_entries(),
                src.len() == cands@.len(),
                forall|i: int, j: int| 0 <= i < j < src.len() ==> src[i] < src[j],
                forall|i: int| 0 <= i < src.len() ==> 0 <= #[trigger] src[i] < s.len(),
                forall|i: int|
                    0 <= i < cands@.len() ==> cand_matches(
                        #[trigger] cands@[i],
                        s,
                        src[i],
                        self.spec_metric_of(),
                        query@,
                        filter,
                    ),
                forall|w: int|
                    0 <= w < s.len() && entry_passes(#[trigger] s[w], filter) ==> exists|c: int|
                        0 <= c < src.len() && src[c] == w,
                forall|i: int| 0 <= i < sel.len() ==> 0 <= #[trigger] sel[i] < m,
                forall|i: int| 0 <= i < sel.len() ==> used@[#[trigger] sel[i]],
                forall|i: int|
                    0 <= i < m ==> (#[trigger] used@[i] <==> exists|j: int|
                        0 <= j < sel.len() && sel[j] == i),
                forall|i: int, j: int| 0 <= i < j < sel.len() ==> sel[i] != sel[j],
                forall|i: int|
                    0 <= i < out@.len() ==> same_hit(#[trigger] out@[i], cands@[sel[i]]),
                forall|i: int, j: int|
                    0 <= i < j < out@.len() ==> spec_sort_key(#[trigger] out@[i].distance)
                        <= spec_sort_key(#[trigger] out@[j].distance),
                forall|i: int|
                    0 <= i < m && !(#[trigger] used@[i]) && out@.len() > 0 ==> spec_sort_key(
                        cands@[i].distance,
                    ) >= spec_sort_key(out@[out@.len() - 1].distance),
            decreases want - round,
        {
            // find the unused candidate with the smallest key
            let mut best: usize = m;
            let mut b: usize = 0;
            while b < m
                invariant
                    0 <= b <= m,
                    m == cands@.len(),
                    used@.len() == m,
                    best == m || (best < m && !used@[best as int]),
                    best == m ==> forall|i: int| 0 <= i < b ==> #[trigger] used@[i],
                    best < m ==> forall|i: int|
                        0 <= i < b && !(#[trigger] used@[i]) ==> spec_sort_key(
                            cands@[best as int].distance,
                        ) <= spec_sort_key(cands@[i].distance),
                decreases m - b,
            {
                if !used[b] {
                    if best == m {
                        best = b;
                    } else {
                        let kb = crate::sort_key(cands[b].distance);
                        let kbest = crate::sort_key(cands[best].distance);
                        if kb < kbest {
                            best = b;
                        }
                    }
                }
                b += 1;
            }
            proof {
                if best == m {
                    // every candidate is used, yet fewer rounds than
                    // candidates have run: impossible
                    lemma_used_count(used@, sel, m as int);
                    assert(sel.len() >= m);
                    assert(false);
                }
            }
            let chosen = SearchResult {
                id: cands[best].id,
                distance: cands[best].distance,
                payload: match &cands[best].payload {
                    Some(p) => Some(p.duplicate()),
                    None => None,
                },
            };
            let ghost prev_used = used@;
            let _ = used.remove(best);
            used.insert(best, true);
            proof {
                assert(used@ =~= prev_used.update(best as int, true));
            }
            let ghost prev_out = out@;
            out.push(chosen);
            proof {
                let ghost prev_sel = sel;
                sel = sel.push(best as int);
                assert(forall|j: int| 0 <= j < prev_sel.len() ==> sel[j] == prev_sel[j]);
                assert(sel[sel.len() - 1] == best);
                assert(same_hit(chosen, cands@[best as int]));
                assert forall|i: int|
                    0 <= i < m implies (used@[i] <==> exists|j: int|
                    0 <= j < sel.len() && sel[j] == i) by {
                    if i == best {
                        assert(used@[i]);
                        assert(sel[sel.len() - 1] == i);
                    } else {
                        assert(used@[i] == prev_used[i]);
                        if prev_used[i] {
                            let j = choose|j: int|
                                0 <= j < prev_sel.len() && prev_sel[j] == i;
                            assert(sel[j] == i);
                        } else {
                            if exists|j: int| 0 <= j < sel.len() && sel[j] == i {
                                let j = choose|j: int| 0 <= j < sel.len() && sel[j] == i;
                                assert(j < prev_sel.len() || j == sel.len() - 1);
                                if j < prev_sel.len() {
                                    assert(prev_sel[j] == i);
                                    assert(false);
                                } else {
                                    assert(sel[j] == best);
                                    assert(false);
                                }
                            }
                        }
                    }
                }
            }
            round += 1;
        }
        proof {
            lemma_search_post(
                out@,
                cands@,
                sel,
                src,
                s,
                self.spec_metric_of(),
                query@,
                filter,
                k as int,
            );
            assert forall|w: int|
                0 <= w < s.len() && entry_passes(#[trigger] s[w], filter) && (forall|i: int|
                    0 <= i < out@.len() ==> (#[trigger] out@[i]).id != s[w].id) && out@.len()
                    > 0 implies spec_sort_key(
                spec_metric(self.spec_metric_of(), query@, s[w].vector),
            ) >= spec_sort_key(out@[out@.len() - 1].distance) by {
                let c = choose|c: int| 0 <= c < src.len() && src[c] == w;
                assert(cand_matches(cands@[c], s, w, self.spec_metric_of(), query@, filter));
                if used@[c] {
                    let j = choose|j: int| 0 <= j < sel.len() && sel[j] == c;
                    assert(same_hit(out@[j], cands@[c]));
                    assert(out@[j].id == s[w].id);
                    assert(false);
                } else {
                    assert(spec_sort_key(cands@[c].distance) >= spec_sort_key(
                        out@[out@.len() - 1].distance,
                    ));
                }
            }
        }
        out
    }
}

/// The chosen hit carries the same identifier, distance and payload shape.
pub open spec fn same_hit(a: SearchResult, b: SearchResult) -> bool {
    &&& a.id == b.id
    &&& a.distance == b.distance
    &&& (match (a.payload, b.payload) {
        (Some(pa), Some(pb)) => pa.view_fields() == pb.view_fields(),
        (None, None) => true,
        _ => false,
    })
}

/// A candidate stands for the matching entry at `m`.
pub open spec fn cand_matches(
    c: SearchResult,
    s: Seq<BfEntry>,
    m: int,
    metric: DistanceMetric,
    q: Seq<u32>,
    f: Option<Filter>,
) -> bool {
    &&& 0 <= m < s.len()
    &&& c.id == s[m].id
    &&& entry_passes(s[m], f)
    &&& c.distance == spec_metric(metric, q, s[m].vector)
    &&& (c.payload matches Some(p) && p.view_fields() == s[m].payload)
}

/// One step of the match counter.
proof fn lemma_match_count_step(s: Seq<BfEntry>, f: Option<Filter>, t: int)
    requires
        0 <= t < s.len(),
    ensures
        match_count(s.take(t + 1), f) == match_count(s.take(t), f) + (if entry_passes(s[t], f) {
            1nat
        } else {
            0nat
        }),
{
    assert(s.take(t + 1).drop_last() =~= s.take(t));
    assert(s.take(t + 1).last() == s[t]);
}

/// A used list whose every flag is set holds at least as many distinct
/// selections as its length.
proof fn lemma_used_count(used: Seq<bool>, sel: Seq<int>, m: int)
    requires
        used.len() == m,
        forall|i: int| 0 <= i < m ==> #[trigger] used[i],
        forall|i: int| 0 <= i < m ==> (#[trigger] used[i] <==> exists|j: int|
            0 <= j < sel.len() && sel[j] == i),
        forall|i: int| 0 <= i < sel.len() ==> 0 <= #[trigger] sel[i] < m,
        forall|i: int, j: int| 0 <= i < j < sel.len() ==> sel[i] != sel[j],
    ensures
        sel.len() >= m,
{
    let selset = sel.to_set();
    assert(selset.len() <= sel.len()) by {
        sel.lemma_cardinality_of_set();
    }
    let full = vstd::set_lib::set_int_range(0, m);
    assert(full.subset_of(selset)) by {
        assert forall|i: int| full.contains(i) implies selset.contains(i) by {
            assert(used[i]);
            let j = choose|j: int| 0 <= j < sel.len() && sel[j] == i;
            assert(sel[j] == i);
            assert(selset.contains(i)) by {
                assert(sel.contains(i));
            }
        }
    }
    vstd::set_lib::lemma_int_range(0, m);
    vstd::set_lib::lemma_len_subset(full, selset);
}

/// The selection loop's bookkeeping gives the search postconditions.
#[verifier::rlimit(100)]
proof fn lemma_search_post(
    out: Seq<SearchResult>,
    cands: Seq<SearchResult>,
    sel: Seq<int>,
    src: Seq<int>,
    s: Seq<BfEntry>,
    metric: DistanceMetric,
    q: Seq<u32>,
    f: Option<Filter>,
    k: int,
)
    requires
        k >= 0,
        out.len() == sel.len(),
        out.len() == (if k < cands.len() {
            k
        } else {
            cands.len() as int
        }),
        cands.len() == match_count(s, f),
        src.len() == cands.len(),
        forall|i: int, j: int| 0 <= i < j < src.len() ==> src[i] < src[j],
        forall|i: int| 0 <= i < src.len() ==> 0 <= #[trigger] src[i] < s.len(),
        forall|i: int|
            0 <= i < cands.len() ==> cand_matches(#[trigger] cands[i], s, src[i], metric, q, f),
        forall|i: int| 0 <= i < sel.len() ==> 0 <= #[trigger] sel[i] < cands.len(),
        forall|i: int, j: int| 0 <= i < j < sel.len() ==> sel[i] != sel[j],
        forall|i: int| 0 <= i < out.len() ==> same_hit(#[trigger] out[i], cands[sel[i]]),
        forall|i: int, j: int| 0 <= i < j < s.len() ==> (#[trigger] s[i]).id != (#[trigger] s[j]).id,
    ensures
        forall|i: int, j: int| 0 <= i < j < out.len() ==> (#[trigger] out[i]).id != (
        #[trigger] out[j]).id,
        forall|i: int|
            0 <= i < out.len() ==> exists|m: int|
                0 <= m < s.len() && (#[trigger] out[i]).id == (#[trigger] s[m]).id
                    && entry_passes(s[m], f) && out[i].distance == spec_metric(
                    metric,
                    q,
                    s[m].vector,
                ) && (out[i].payload matches Some(p) && p.view_fields() == s[m].payload),
{
    assert forall|i: int, j: int|
        0 <= i < j < out.len() implies (#[trigger] out[i]).id != (#[trigger] out[j]).id by {
        assert(same_hit(out[i], cands[sel[i]]));
        assert(same_hit(out[j], cands[sel[j]]));
        assert(cand_matches(cands[sel[i]], s, src[sel[i]], metric, q, f));
        assert(cand_matches(cands[sel[j]], s, src[sel[j]], metric, q, f));
        if sel[i] < sel[j] {
            assert(src[sel[i]] < src[sel[j]]);
            assert(s[src[sel[i]]].id != s[src[sel[j]]].id);
        } else {
            assert(src[sel[j]] < src[sel[i]]);
            assert(s[src[sel[j]]].id != s[src[sel[i]]].id);
        }
    }
    assert forall|i: int| 0 <= i < out.len() implies exists|m: int|
        0 <= m < s.len() && (#[trigger] out[i]).id == (#[trigger] s[m]).id && entry_passes(
            s[m],
            f,
        ) && out[i].distance == spec_metric(metric, q, s[m].vector) && (out[i].payload matches Some(
            p,
        ) && p.view_fields() == s[m].payload) by {
        assert(same_hit(out[i], cands[sel[i]]));
        assert(cand_matches(cands[sel[i]], s, src[sel[i]], metric, q, f));
        let m = src[sel[i]];
        assert(0 <= m < s.len() && out[i].id == s[m].id && entry_passes(s[m], f)
            && out[i].distance == spec_metric(metric, q, s[m].vector) && (out[i].payload
            matches Some(p) && p.view_fields() == s[m].payload));
    }
}

} // verus!
