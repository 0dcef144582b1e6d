//! The layered proximity-graph index for approximate nearest-neighbor
//! search.
//!
//! Nodes live on layers zero up to their level; edges within a layer are
//! kept bidirectional, never from a node to itself, and capped per layer.
//! Search descends greedily from the top layer and runs a beam search on
//! layer zero. An edge is added only while both ends have room, so the
//! invariant survives every insert and delete.

use vstd::prelude::*;
use crate::dist::{DistanceMetric, spec_metric};
use crate::payload::Payload;
use crate::value::SpecValue;
use crate::filter::{Filter, filter_matches};
use crate::error::Error;
use crate::spec_sort_key;

verus! {

/// Relies on `rand::random`: a value drawn from the thread's generator.
/// Nothing is promised of it; every level assignment is acceptable.
pub assume_specification<T>[ rand::random::<T> ]() -> (r: T)
    where
        rand::distr::StandardUniform: rand::distr::Distribution<T>,
;

/// Tuning of the graph: per-layer degree caps and beam widths.
#[derive(Debug, Clone, Copy, PartialEq, Eq, Structural)]
pub struct HnswConfig {
    /// Degree cap on layers above zero.
    pub m: usize,
    /// Degree cap on layer zero, usually twice `m`.
    pub m_max0: usize,
    /// Beam width while building.
    pub ef_construction: usize,
    /// Beam width while searching, unless overridden per query.
    pub ef_search: usize,
}

impl Default for HnswConfig {
    /// The usual tuning.
    fn default() -> (r: Self)
        ensures
            r == (HnswConfig { m: 16, m_max0: 32, ef_construction: 100, ef_search: 50 }),
    {
        HnswConfig { m: 16, m_max0: 32, ef_construction: 100, ef_search: 50 }
    }
}

impl HnswConfig {
    /// The usual tuning with the given degree cap; layer zero gets twice it.
    pub fn with_m(m: usize) -> (r: Self)
        requires
            1 <= m <= usize::MAX / 2,
        ensures
            r == (HnswConfig { m: m, m_max0: (2 * m) as usize, ef_construction: 100, ef_search: 50 }),
    {
        HnswConfig { m, m_max0: 2 * m, ef_construction: 100, ef_search: 50 }
    }
}

/// One graph node.
#[derive(Debug)]
pub struct HnswNode {
    /// Identifier.
    pub id: u64,
    /// The vector's scalar bit patterns.
    pub vector: Vec<u32>,
    /// The payload.
    pub payload: Payload,
    /// Highest layer the node lives on.
    pub level: usize,
    /// Neighbor identifiers per layer, indexed zero up to `level`.
    pub neighbors: Vec<Vec<u64>>,
}

/// The shape of one node.
pub struct NodeView {
    /// Identifier.
    pub id: u64,
    /// Vector bit patterns.
    pub vector: Seq<u32>,
    /// Payload fields.
    pub payload: Seq<(Seq<char>, SpecValue)>,
    /// Highest layer.
    pub level: int,
    /// Neighbor lists per layer.
    pub neighbors: Seq<Seq<u64>>,
}

/// View of one node.
pub open spec fn node_view(n: HnswNode) -> NodeView {
    NodeView {
        id: n.id,
        vector: n.vector@,
        payload: n.payload.view_fields(),
        level: n.level as int,
        neighbors: n.neighbors@.map_values(|l: Vec<u64>| l@),
    }
}

/// View of the node list.
pub open spec fn nodes_view(s: Seq<HnswNode>) -> Seq<NodeView> {
    s.map_values(|n: HnswNode| node_view(n))
}

/// The node holding `id`, if any.
pub open spec fn hn_lookup(s: Seq<NodeView>, id: u64) -> Option<NodeView>
    decreases s.len(),
{
    if s.len() == 0 {
        None
    } else if s[0].id == id {
        Some(s[0])
    } else {
        hn_lookup(s.drop_first(), id)
    }
}

/// Whether some node of the list holds `id`.
pub open spec fn has_id(s: Seq<NodeView>, id: u64) -> bool {
    exists|i: int| 0 <= i < s.len() && (#[trigger] s[i]).id == id
}

/// The graph invariant on the node list: distinct identifiers; neighbor
/// lists exactly up to each node's level; no self loops; every edge
/// mirrored on a node that has that layer; and per-layer degree caps.
pub open spec fn graph_wf(s: Seq<NodeView>, m: int, m_max0: int) -> bool {
    &&& (forall|i: int, j: int|
        0 <= i < j < s.len() ==> (#[trigger] s[i]).id != (#[trigger] s[j]).id)
    &&& (forall|i: int| 0 <= i < s.len() ==> (#[trigger] s[i]).neighbors.len() == s[i].level + 1)
    &&& (forall|i: int| 0 <= i < s.len() ==> (#[trigger] s[i]).level >= 0)
    &&& (forall|i: int, l: int, k: int|
        0 <= i < s.len() && 0 <= l < s[i].neighbors.len() && 0 <= k
            < s[i].neighbors[l].len() ==> #[trigger] s[i].neighbors[l][k] != s[i].id)
    &&& (forall|i: int, l: int, k: int|
        0 <= i < s.len() && 0 <= l < s[i].neighbors.len() && 0 <= k
            < s[i].neighbors[l].len() ==> #[trigger] s[i].neighbors[l][k] == s[i].neighbors[l][k]
            && exists|j: int|
            {
                &&& 0 <= j < s.len()
                &&& (#[trigger] s[j]).id == s[i].neighbors[l][k]
                &&& l < s[j].neighbors.len()
                &&& s[j].neighbors[l].contains(s[i].id)
            })
    &&& (forall|i: int|
        0 <= i < s.len() ==> (#[trigger] s[i]).neighbors[0].len() <= m_max0)
    &&& (forall|i: int, l: int|
        0 <= i < s.len() && 1 <= l < (#[trigger] s[i]).neighbors.len() ==> (
        #[trigger] s[i].neighbors[l]).len() <= m)
}

/// The layered proximity-graph index.
#[derive(Debug)]
pub struct HnswIndex {
    dimension: usize,
    metric: DistanceMetric,
    config: HnswConfig,
    entry_point: Option<u64>,
    max_level: usize,
    nodes: Vec<HnswNode>,
}

impl HnswIndex {
    /// View: the nodes.
    pub closed spec fn view_nodes(&self) -> Seq<NodeView> {
        nodes_view(self.nodes@)
    }

    /// The configured dimension.
    pub closed spec fn spec_dimension(&self) -> usize {
        self.dimension
    }

    /// The configured metric.
    pub closed spec fn spec_metric_of(&self) -> DistanceMetric {
        self.metric
    }

    /// The tuning.
    pub closed spec fn spec_config(&self) -> HnswConfig {
        self.config
    }

    /// The entry point, if the graph has nodes.
    pub closed spec fn spec_entry_point(&self) -> Option<u64> {
        self.entry_point
    }

    /// The highest level any node has.
    pub closed spec fn spec_max_level(&self) -> int {
        self.max_level as int
    }

    /// The index invariant: the graph invariant, dimensions, well-formed
    /// payloads, an entry point exactly when the graph has nodes, and a
    /// maximum level met by some node.
    pub open spec fn wf(&self) -> bool {
        &&& graph_wf(
            self.view_nodes(),
            self.spec_config().m as int,
            self.spec_config().m_max0 as int,
        )
        &&& (forall|i: int|
            0 <= i < self.view_nodes().len() ==> (#[trigger] self.view_nodes()[i]).vector.len()
                == self.spec_dimension())
        &&& (forall|i: int|
            0 <= i < self.view_nodes().len() ==> crate::payload::keys_unique(
                (#[trigger] self.view_nodes()[i]).payload,
            ) && crate::payload::values_wf(self.view_nodes()[i].payload))
        &&& (self.spec_entry_point() is Some <==> self.view_nodes().len() > 0)
        &&& (self.spec_entry_point() matches Some(ep) ==> has_id(self.view_nodes(), ep))
        &&& (forall|i: int|
            0 <= i < self.view_nodes().len() ==> (#[trigger] self.view_nodes()[i]).level
                <= self.spec_max_level())
        &&& (self.view_nodes().len() > 0 ==> exists|i: int|
            0 <= i < self.view_nodes().len() && (#[trigger] self.view_nodes()[i]).level
                == self.spec_max_level())
        &&& (self.view_nodes().len() == 0 ==> self.spec_max_level() == 0)
        &&& self.spec_dimension() < 0x8_0000_0000_0000
        &&& self.spec_config().m >= 1
        &&& self.spec_config().m_max0 >= 1
    }

    /// An empty graph.
    pub fn new(metric: DistanceMetric, dimension: usize, config: HnswConfig) -> (r: HnswIndex)
        requires
            dimension < 0x8_0000_0000_0000,
            config.m >= 1,
            config.m_max0 >= 1,
        ensures
            r.view_nodes() == Seq::<NodeView>::empty(),
            r.spec_dimension() == dimension,
            r.spec_metric_of() == metric,
            r.spec_config() == config,
            r.wf(),
    {
        let r = HnswIndex {
            dimension,
            metric,
            config,
            entry_point: None,
            max_level: 0,
            nodes: Vec::new(),
        };
        proof {
            assert(r.view_nodes() =~= Seq::<NodeView>::empty());
        }
        r
    }

    /// Number of stored vectors.
    pub fn len(&self) -> (r: usize)
        ensures
            r == self.view_nodes().len(),
    {
        self.nodes.len()
    }

    /// Whether the graph has no nodes.
    pub fn is_empty(&self) -> (r: bool)
        ensures
            r == (self.view_nodes().len() == 0),
    {
        self.nodes.len() == 0
    }

    /// The configured dimension.
    pub fn dimension(&self) -> (r: usize)
        ensures
            r == self.spec_dimension(),
    {
        self.dimension
    }

    /// The configured metric.
    pub fn metric(&self) -> (r: DistanceMetric)
        ensures
            r == self.spec_metric_of(),
    {
        self.metric
    }

    /// Index of the node holding `id`, executable.
    fn find(&self, id: u64) -> (r: Option<usize>)
        ensures
            match r {
                Some(i) => i < self.view_nodes().len() && self.view_nodes()[i as int].id == id,
                None => !has_id(self.view_nodes(), id),
            },
    {
        let n = self.nodes.len();
        let mut i: usize = 0;
        while i < n
            invariant
                0 <= i <= n,
                n == self.nodes@.len(),
                forall|k: int| 0 <= k < i ==> (#[trigger] self.view_nodes()[k]).id != id,
            decreases n - i,
        {
            if self.nodes[i].id == id {
                return Some(i);
            }
            i += 1;
        }
        None
    }

    /// Draws a level: each next level is kept with probability about one in
    /// `m`, a geometric distribution, capped at thirty.
    fn random_level(&self) -> (r: usize)
        requires
            self.spec_config().m >= 1,
        ensures
            r <= 30,
    {
        let m = self.config.m as u64;
        let threshold = u64::MAX / m;
        let mut level: usize = 0;
        loop
            invariant
                level <= 30,
                threshold == u64::MAX as u64 / (self.spec_config().m as u64),
            decreases 30 - level,
        {
            if level >= 30 {
                return level;
            }
            let draw: u64 = rand::random::<u64>();
            if draw < threshold {
                level += 1;
            } else {
                return level;
            }
        }
    }
}

/// The data a node carries, neighbors aside.
pub open spec fn same_data(s1: Seq<NodeView>, s2: Seq<NodeView>) -> bool {
    &&& s1.len() == s2.len()
    &&& (forall|i: int|
        0 <= i < s1.len() ==> (#[trigger] s2[i]).id == s1[i].id && s2[i].vector == s1[i].vector
            && s2[i].payload == s1[i].payload && s2[i].level == s1[i].level
            && s2[i].neighbors.len() == s1[i].neighbors.len())
}

impl HnswIndex {
    /// Connects two nodes on a layer, both ways, when both have the layer
    /// and room for one more edge; otherwise changes nothing.
    #[verifier::rlimit(100)]
    #[verifier::spinoff_prover]
    fn add_edge(&mut self, ai: usize, bi: usize, layer: usize)
        requires
            old(self).wf(),
            ai < old(self).view_nodes().len(),
            bi < old(self).view_nodes().len(),
            ai != bi,
        ensures
            final(self).wf(),
            same_data(old(self).view_nodes(), final(self).view_nodes()),
            final(self).spec_config() == old(self).spec_config(),
            final(self).spec_dimension() == old(self).spec_dimension(),
            final(self).spec_metric_of() == old(self).spec_metric_of(),
            final(self).spec_entry_point() == old(self).spec_entry_point(),
            final(self).spec_max_level() == old(self).spec_max_level(),
    {
        let cap = if layer == 0 {
            self.config.m_max0
        } else {
            self.config.m
        };
        if layer >= self.nodes[ai].neighbors.len() || layer >= self.nodes[bi].neighbors.len() {
            return;
        }
        if self.nodes[ai].neighbors[layer].len() >= cap
            || self.nodes[bi].neighbors[layer].len() >= cap {
            return;
        }
        let a_id = self.nodes[ai].id;
        let b_id = self.nodes[bi].id;
        proof {
            if ai < bi {
                assert(self.view_nodes()[ai as int].id != self.view_nodes()[bi as int].id);
            } else {
                assert(self.view_nodes()[bi as int].id != self.view_nodes()[ai as int].id);
            }
        }
        let ghost old_view = self.view_nodes();
        // push the edge on both ends
        let mut na = self.nodes.remove(ai);
        let mut la = na.neighbors.remove(layer);
        la.push(b_id);
        na.neighbors.insert(layer, la);
        self.nodes.insert(ai, na);
        let ghost mid_view = self.view_nodes();
        proof {
            assert(forall|i: int|
                0 <= i < old_view.len() && i != ai ==> #[trigger] mid_view[i] == old_view[i]);
            assert(mid_view[ai as int].neighbors =~= old_view[ai as int].neighbors.update(
                layer as int,
                old_view[ai as int].neighbors[layer as int].push(b_id),
            ));
        }
        let mut nb = self.nodes.remove(bi);
        let mut lb = nb.neighbors.remove(layer);
        lb.push(a_id);
        nb.neighbors.insert(layer, lb);
        self.nodes.insert(bi, nb);
        let ghost new_view = self.view_nodes();
        proof {
            assert(forall|i: int|
                0 <= i < old_view.len() && i != bi ==> #[trigger] new_view[i] == mid_view[i]);
            assert(new_view[bi as int].neighbors =~= mid_view[bi as int].neighbors.update(
                layer as int,
                mid_view[bi as int].neighbors[layer as int].push(a_id),
            ));
            assert(same_data(old_view, new_view)) by {
                assert(forall|i: int|
                    0 <= i < old_view.len() && i != ai && i != bi ==> #[trigger] new_view[i]
                        == old_view[i]);
            }
            assert(forall|i: int|
                0 <= i < new_view.len() ==> (#[trigger] new_view[i]).neighbors.len()
                    == new_view[i].level + 1);
            if self.spec_entry_point() is Some {
                let ep = self.spec_entry_point().unwrap();
                let w = choose|w: int|
                    0 <= w < old_view.len() && (#[trigger] old_view[w]).id == ep;
                assert(new_view[w].id == ep);
                assert(has_id(new_view, ep));
            }
            if new_view.len() > 0 {
                let w = choose|w: int|
                    0 <= w < old_view.len() && (#[trigger] old_view[w]).level
                        == self.spec_max_level();
                assert(new_view[w].level == self.spec_max_level());
            }
            let s = new_view;
            let m = self.spec_config().m as int;
            let m0 = self.spec_config().m_max0 as int;
            assert(forall|i: int|
                0 <= i < s.len() ==> (#[trigger] s[i]).neighbors[0].len() <= m0) by {
                if layer == 0 {
                    assert(s[ai as int].neighbors[0].len() == old_view[ai
                        as int].neighbors[0].len() + 1);
                    assert(s[bi as int].neighbors[0].len() == old_view[bi
                        as int].neighbors[0].len() + 1);
                }
            }
            assert(forall|i: int, l: int|
                0 <= i < s.len() && 1 <= l < (#[trigger] s[i]).neighbors.len() ==> (
                #[trigger] s[i].neighbors[l]).len() <= m) by {
                if layer >= 1 {
                    assert(s[ai as int].neighbors[layer as int].len() == old_view[ai
                        as int].neighbors[layer as int].len() + 1);
                    assert(s[bi as int].neighbors[layer as int].len() == old_view[bi
                        as int].neighbors[layer as int].len() + 1);
                }
            }
            assert(graph_wf(s, m, m0)) by {
                assert forall|i: int, l: int, k: int|
                    0 <= i < s.len() && 0 <= l < s[i].neighbors.len() && 0 <= k
                        < s[i].neighbors[l].len() implies #[trigger] s[i].neighbors[l][k]
                    != s[i].id && exists|j: int|
                    {
                        &&& 0 <= j < s.len()
                        &&& (#[trigger] s[j]).id == s[i].neighbors[l][k]
                        &&& l < s[j].neighbors.len()
                        &&& s[j].neighbors[l].contains(s[i].id)
                    } by {
                    let was_new_a = i == ai && l == layer && k == old_view[ai
                        as int].neighbors[l].len();
                    let was_new_b = i == bi && l == layer && k == old_view[bi
                        as int].neighbors[l].len();
                    if was_new_a {
                        assert(s[i].neighbors[l][k] == b_id);
                        assert(s[bi as int].id == b_id);
                        assert(s[bi as int].neighbors[layer as int].contains(a_id)) by {
                            assert(s[bi as int].neighbors[layer as int].last() == a_id);
                        }
                        assert(s[i].id == a_id);
                    } else if was_new_b {
                        assert(s[i].neighbors[l][k] == a_id);
                        assert(s[ai as int].id == a_id);
                        assert(s[ai as int].neighbors[layer as int].contains(b_id)) by {
                            assert(s[ai as int].neighbors[layer as int].last() == b_id);
                        }
                        assert(s[i].id == b_id);
                    } else {
                        assert(s[i].neighbors[l][k] == old_view[i].neighbors[l][k]);
                        let j = choose|j: int|
                            {
                                &&& 0 <= j < old_view.len()
                                &&& (#[trigger] old_view[j]).id == old_view[i].neighbors[l][k]
                                &&& l < old_view[j].neighbors.len()
                                &&& old_view[j].neighbors[l].contains(old_view[i].id)
                            };
                        assert(s[j].id == old_view[j].id);
                        assert(s[j].neighbors[l].contains(s[i].id)) by {
                            let w = choose|w: int|
                                0 <= w < old_view[j].neighbors[l].len()
                                    && old_view[j].neighbors[l][w] == old_view[i].id;
                            assert(s[j].neighbors[l][w] == old_view[i].id);
                        }
                    }
                }
            }
        }
    }

    /// Greedy single-best descent on one layer: follows a strictly closer
    /// neighbor until none is closer.
    #[verifier::rlimit(100)]
    fn greedy_search_single(&self, query: &[u32], entry: u64, layer: usize) -> (r: u64)
        requires
            self.wf(),
            query@.len() == self.spec_dimension(),
            has_id(self.view_nodes(), entry),
        ensures
            has_id(self.view_nodes(), r),
    {
        let mut cur = entry;
        let ei = match self.find(cur) {
            Some(i) => i,
            None => {
                proof {
                    assert(false);
                }
                0
            },
        };
        let mut cd = self.metric.compute(query, self.nodes[ei].vector.as_slice());
        loop
            invariant
                self.wf(),
                query@.len() == self.spec_dimension(),
                has_id(self.view_nodes(), cur),
            decreases spec_sort_key(cd),
        {
            let ni = match self.find(cur) {
                Some(i) => i,
                None => {
                    proof {
                        assert(false);
                    }
                    return cur;
                },
            };
            let mut improved = false;
            let mut best_id = cur;
            let mut best_d = cd;
            if layer < self.nodes[ni].neighbors.len() {
                let deg = self.nodes[ni].neighbors[layer].len();
                let mut k: usize = 0;
                while k < deg
                    invariant
                        0 <= k <= deg,
                        ni < self.nodes@.len(),
                        layer < self.nodes@[ni as int].neighbors@.len(),
                        deg == self.view_nodes()[ni as int].neighbors[layer as int].len(),
                        self.wf(),
                        query@.len() == self.spec_dimension(),
                        has_id(self.view_nodes(), best_id),
                        improved ==> spec_sort_key(best_d) < spec_sort_key(cd),
                        !improved ==> best_d == cd,
                    decreases deg - k,
                {
                    let nb = self.nodes[ni].neighbors[layer][k];
                    proof {
                        assert(self.view_nodes()[ni as int].neighbors[layer as int][k as int]
                            == nb);
                        assert(exists|j: int|
                            0 <= j < self.view_nodes().len() && (#[trigger] self.view_nodes()[j]).id
                                == nb && (layer as int) < self.view_nodes()[j].neighbors.len()
                                && self.view_nodes()[j].neighbors[layer as int].contains(
                                self.view_nodes()[ni as int].id,
                            ));
                        assert(has_id(self.view_nodes(), nb));
                    }
                    let bi = match self.find(nb) {
                        Some(i) => i,
                        None => {
                            proof {
                                assert(false);
                            }
                            return cur;
                        },
                    };
                    let d = self.metric.compute(query, self.nodes[bi].vector.as_slice());
                    let kd = crate::sort_key(d);
                    let kb = crate::sort_key(best_d);
                    if kd < kb {
                        best_id = nb;
                        best_d = d;
                        improved = true;
                        proof {
                            assert(has_id(self.view_nodes(), nb));
                        }
                    }
                    k += 1;
                }
            }
            if !improved {
                return cur;
            }
            cur = best_id;
            cd = best_d;
        }
    }

    /// Beam search on one layer: keeps the `ef` closest visited nodes. The
    /// result is sorted ascending by distance order key, holds distinct
    /// identifiers of present nodes with their exact distances, and every
    /// returned node has the layer.
    #[verifier::rlimit(100)]
    #[verifier::spinoff_prover]
    #[verifier::rlimit(100)]
    #[verifier::spinoff_prover]
    fn search_layer(&self, query: &[u32], eps: &Vec<u64>, ef: usize, layer: usize) -> (r: (
        Vec<(u64, u32)>,
        Ghost<(Seq<u64>, Seq<u64>)>,
    ))
        requires
            self.wf(),
            query@.len() == self.spec_dimension(),
            ef >= 1,
        ensures
            r.0@.len() <= ef,
            forall|i: int, j: int|
                0 <= i < j < r.0@.len() ==> spec_sort_key((#[trigger] r.0@[i]).1)
                    <= spec_sort_key((#[trigger] r.0@[j]).1),
            forall|i: int, j: int|
                0 <= i < j < r.0@.len() ==> (#[trigger] r.0@[i]).0 != (#[trigger] r.0@[j]).0,
            forall|i: int|
                0 <= i < r.0@.len() ==> result_entry_ok(#[trigger] r.0@[i], self.view_nodes(),
                self.spec_metric_of(), query@, layer as int),
            (exists|i: int|
                0 <= i < eps@.len() && node_with_layer(self.view_nodes(), #[trigger] eps@[i],
                layer as int)) ==> r.0@.len() >= 1,
            forall|i: int|
                0 <= i < r.0@.len() ==> reachable(self.view_nodes(), eps@, layer as int, (
                #[trigger] r.0@[i]).0),
            beam_done(r.0@, r.1@.0, r.1@.1, self.view_nodes(), self.spec_metric_of(), query@,
            layer as int, ef as int),
            forall|i: int|
                0 <= i < eps@.len() && node_with_layer(self.view_nodes(), #[trigger] eps@[i],
                layer as int) ==> r.1@.0.contains(eps@[i]),
            forall|i: int|
                0 <= i < r.1@.0.len() ==> reachable(self.view_nodes(), eps@, layer as int,
                #[trigger] r.1@.0[i]),
    {
        let n = self.nodes.len();
        let mut visited: Vec<u64> = Vec::new();
        let mut frontier: Vec<(u64, u32)> = Vec::new();
        let mut results: Vec<(u64, u32)> = Vec::new();
        // seed with the entry points that have the layer
        let mut e: usize = 0;
        while e < eps.len()
            invariant
                0 <= e <= eps@.len(),
                self.wf(),
                query@.len() == self.spec_dimension(),
                ef >= 1,
                n == self.nodes@.len(),
                seen_ok(visited@, frontier@, results@, self.view_nodes(), self.spec_metric_of(),
                query@, layer as int, ef as int),
                visited@.len() >= 1 ==> results@.len() >= 1,
                forall|i: int|
                    0 <= i < e && node_with_layer(self.view_nodes(), #[trigger] eps@[i],
                    layer as int) ==> results@.len() >= 1,
                forall|i: int|
                    0 <= i < visited@.len() ==> reachable(self.view_nodes(), eps@,
                    layer as int, #[trigger] visited@[i]),
                forall|i: int|
                    0 <= i < frontier@.len() ==> reachable(self.view_nodes(), eps@,
                    layer as int, (#[trigger] frontier@[i]).0),
                forall|i: int|
                    0 <= i < results@.len() ==> (#[trigger] results@[i]).1 == id_dist(
                    self.view_nodes(), self.spec_metric_of(), query@, results@[i].0),
                forall|i: int|
                    0 <= i < frontier@.len() ==> (#[trigger] frontier@[i]).1 == id_dist(
                    self.view_nodes(), self.spec_metric_of(), query@, frontier@[i].0),
                forall|i: int|
                    0 <= i < visited@.len() ==> (kept_hit(#[trigger] visited@[i], results@)
                        || far_only(visited@[i], results@, self.view_nodes(),
                    self.spec_metric_of(), query@, ef as int)),
                forall|i: int|
                    0 <= i < visited@.len() ==> (in_frontier(#[trigger] visited@[i], frontier@)
                        || far_only(visited@[i], results@, self.view_nodes(),
                    self.spec_metric_of(), query@, ef as int) || nbrs_seen(visited@[i],
                    visited@, results@, self.view_nodes(), self.spec_metric_of(), query@,
                    layer as int, ef as int)),
                forall|i: int|
                    0 <= i < e && node_with_layer(self.view_nodes(), #[trigger] eps@[i],
                    layer as int) ==> visited@.contains(eps@[i]),
            decreases eps@.len() - e,
        {
            let ep = eps[e];
            let ghost res_before = results@.len();
            let already = contains_id(&visited, ep);
            proof {
                if node_with_layer(self.view_nodes(), ep, layer as int) && already {
                    assert(visited@.len() >= 1) by {
                        assert(visited@.contains(ep));
                    }
                }
            }
            if !already {
                match self.find(ep) {
                    Some(ni) => {
                        proof {
                            if node_with_layer(self.view_nodes(), ep, layer as int) {
                                let j = choose|j: int|
                                    0 <= j < self.view_nodes().len() && (
                                    #[trigger] self.view_nodes()[j]).id == ep && (layer as int)
                                        < self.view_nodes()[j].neighbors.len();
                                if j < ni {
                                    assert(self.view_nodes()[j].id == self.view_nodes()[ni
                                        as int].id);
                                } else if ni < j {
                                    assert(self.view_nodes()[ni as int].id
                                        == self.view_nodes()[j].id);
                                }
                                assert((layer as int) < self.view_nodes()[ni
                                    as int].neighbors.len());
                            }
                        }
                        if layer < self.nodes[ni].neighbors.len() {
                            let d = self.metric.compute(
                                query,
                                self.nodes[ni].vector.as_slice(),
                            );
                            let ghost pre_v = visited@;
                            let ghost pre_r = results@;
                            let ghost pre_f = frontier@;
                            proof {
                                assert(reach_n(self.view_nodes(), eps@, layer as int, ep, 0))
                                    by {
                                    assert(eps@[e as int] == ep);
                                }
                                assert(reachable(self.view_nodes(), eps@, layer as int, ep));
                                assert(forall|k: int| 0 <= k < pre_v.len() ==> pre_v[k] != ep);
                                assert(self.view_nodes()[ni as int].id == ep);
                                assert(result_entry_ok((ep, d), self.view_nodes(),
                                self.spec_metric_of(), query@, layer as int));
                                assert forall|i: int|
                                    0 <= i < pre_r.len() implies (#[trigger] pre_r[i]).0
                                    != ep by {
                                    assert(pre_v.contains(pre_r[i].0));
                                    let k = choose|k: int|
                                        0 <= k < pre_v.len() && pre_v[k] == pre_r[i].0;
                                }
                            }
                            visited.push(ep);
                            frontier.push((ep, d));
                            insert_result(&mut results, (ep, d), ef);
                            proof {
                                assert(visited@ =~= pre_v.push(ep));
                                let sv = self.view_nodes();
                                let met = self.spec_metric_of();
                                assert(frontier@ =~= pre_f.push((ep, d)));
                                lemma_id_dist(sv, met, query@, (ep, d), layer as int);
                                assert(beam_step(pre_r, results@, ef as int));
                                assert forall|i: int|
                                    0 <= i < results@.len() implies (#[trigger] results@[i]).1
                                    == id_dist(sv, met, query@, results@[i].0) by {
                                    if in_seq(results@[i], pre_r) {
                                        let w = choose|w: int|
                                            0 <= w < pre_r.len() && #[trigger] pre_r[w]
                                                == results@[i];
                                    } else {
                                        assert(results@[i] == (ep, d));
                                    }
                                }
                                assert forall|i: int|
                                    0 <= i < frontier@.len() implies (#[trigger] frontier@[
                                i]).1 == id_dist(sv, met, query@, frontier@[i].0) by {
                                    if i < pre_f.len() {
                                        assert(frontier@[i] == pre_f[i]);
                                    } else {
                                        assert(frontier@[i] == (ep, d));
                                    }
                                }
                                assert forall|i: int|
                                    0 <= i < visited@.len() implies (kept_hit(
                                    #[trigger] visited@[i], results@) || far_only(visited@[i],
                                results@, sv, met, query@, ef as int)) by {
                                    if i < pre_v.len() {
                                        assert(visited@[i] == pre_v[i]);
                                        lemma_kept_preserved(pre_v[i], pre_r, results@, sv,
                                        met, query@, ef as int);
                                    } else {
                                        assert(visited@[i] == ep);
                                        if in_seq((ep, d), results@) {
                                            let w = choose|w: int|
                                                0 <= w < results@.len()
                                                    && #[trigger] results@[w] == (ep, d);
                                            assert(kept_hit(ep, results@));
                                        } else {
                                            assert(far_only(ep, results@, sv, met, query@,
                                            ef as int));
                                        }
                                    }
                                }
                                assert forall|i: int|
                                    0 <= i < visited@.len() implies (in_frontier(
                                    #[trigger] visited@[i], frontier@) || far_only(
                                    visited@[i],
                                    results@,
                                    sv,
                                    met,
                                    query@,
                                    ef as int,
                                ) || nbrs_seen(visited@[i], visited@, results@, sv, met,
                                query@, layer as int, ef as int)) by {
                                    if i < pre_v.len() {
                                        assert(visited@[i] == pre_v[i]);
                                        if in_frontier(pre_v[i], pre_f) {
                                            let f = choose|f: int|
                                                0 <= f < pre_f.len() && (
                                                #[trigger] pre_f[f]).0 == pre_v[i];
                                            assert(frontier@[f] == pre_f[f]);
                                            assert(in_frontier(visited@[i], frontier@));
                                        } else if far_only(pre_v[i], pre_r, sv, met, query@,
                                        ef as int) {
                                            lemma_far_preserved(pre_v[i], pre_r, results@,
                                            sv, met, query@, ef as int);
                                        } else {
                                            lemma_nbrs_preserved(pre_v[i], pre_v, visited@,
                                            pre_r, results@, sv, met, query@, layer as int,
                                            ef as int);
                                        }
                                    } else {
                                        assert(visited@[i] == ep);
                                        assert(frontier@[pre_f.len() as int].0 == ep);
                                        assert(in_frontier(ep, frontier@));
                                    }
                                }
                                assert forall|i: int|
                                    0 <= i < e + 1 && node_with_layer(sv, #[trigger] eps@[i],
                                layer as int) implies visited@.contains(eps@[i]) by {
                                    if i < e {
                                        assert(pre_v.contains(eps@[i]));
                                        let x = choose|x: int|
                                            0 <= x < pre_v.len() && pre_v[x] == eps@[i];
                                        assert(visited@[x] == eps@[i]);
                                    } else {
                                        assert(visited@.last() == ep);
                                    }
                                }
                                assert forall|i: int|
                                    0 <= i < results@.len() implies visited@.contains(
                                    (#[trigger] results@[i]).0) && result_entry_ok(results@[i],
                                    self.view_nodes(), self.spec_metric_of(), query@,
                                    layer as int) by {
                                    if in_seq(results@[i], pre_r) {
                                        let w = choose|w: int|
                                            0 <= w < pre_r.len() && #[trigger] pre_r[w]
                                                == results@[i];
                                        assert(pre_v.contains(pre_r[w].0));
                                        let k = choose|k: int|
                                            0 <= k < pre_v.len() && pre_v[k] == pre_r[w].0;
                                        assert(visited@[k] == results@[i].0);
                                        assert(result_entry_ok(pre_r[w], self.view_nodes(),
                                        self.spec_metric_of(), query@, layer as int));
                                    } else {
                                        assert(results@[i] == (ep, d));
                                        assert(visited@.last() == ep);
                                    }
                                }
                                assert forall|i: int|
                                    0 <= i < visited@.len() implies exists|j: int|
                                    0 <= j < self.view_nodes().len() && (
                                    #[trigger] self.view_nodes()[j]).id
                                        == #[trigger] visited@[i] by {
                                    if i < pre_v.len() {
                                        assert(visited@[i] == pre_v[i]);
                                    } else {
                                        assert(visited@[i] == ep);
                                        assert(self.view_nodes()[ni as int].id == ep);
                                    }
                                }
                            }
                        }
                    },
                    None => {
                        proof {
                            assert(!has_id(self.view_nodes(), ep));
                            if node_with_layer(self.view_nodes(), ep, layer as int) {
                                assert(has_id(self.view_nodes(), ep));
                            }
                        }
                    },
                }
            }
            e += 1;
        }
        let ghost seeded = results@.len() >= 1;
        proof {
            assert forall|i: int|
                0 <= i < eps@.len() && node_with_layer(self.view_nodes(), #[trigger] eps@[i],
                layer as int) implies seeded by {}
        }
        // expand the closest unexpanded node until none helps
        loop
            invariant
                self.wf(),
                query@.len() == self.spec_dimension(),
                ef >= 1,
                n == self.nodes@.len(),
                seeded ==> results@.len() >= 1,
                (exists|i: int|
                    0 <= i < eps@.len() && node_with_layer(self.view_nodes(),
                    #[trigger] eps@[i], layer as int)) ==> seeded,
                seen_ok(visited@, frontier@, results@, self.view_nodes(), self.spec_metric_of(),
                query@, layer as int, ef as int),
                forall|i: int|
                    0 <= i < visited@.len() ==> reachable(self.view_nodes(), eps@,
                    layer as int, #[trigger] visited@[i]),
                forall|i: int|
                    0 <= i < frontier@.len() ==> reachable(self.view_nodes(), eps@,
                    layer as int, (#[trigger] frontier@[i]).0),
                forall|i: int|
                    0 <= i < results@.len() ==> (#[trigger] results@[i]).1 == id_dist(
                    self.view_nodes(), self.spec_metric_of(), query@, results@[i].0),
                forall|i: int|
                    0 <= i < frontier@.len() ==> (#[trigger] frontier@[i]).1 == id_dist(
                    self.view_nodes(), self.spec_metric_of(), query@, frontier@[i].0),
                forall|i: int|
                    0 <= i < visited@.len() ==> (kept_hit(#[trigger] visited@[i], results@)
                        || far_only(visited@[i], results@, self.view_nodes(),
                    self.spec_metric_of(), query@, ef as int)),
                forall|i: int|
                    0 <= i < visited@.len() ==> (in_frontier(#[trigger] visited@[i], frontier@)
                        || far_only(visited@[i], results@, self.view_nodes(),
                    self.spec_metric_of(), query@, ef as int) || nbrs_seen(visited@[i],
                    visited@, results@, self.view_nodes(), self.spec_metric_of(), query@,
                    layer as int, ef as int)),
                forall|i: int|
                    0 <= i < eps@.len() && node_with_layer(self.view_nodes(),
                    #[trigger] eps@[i], layer as int) ==> visited@.contains(eps@[i]),
            decreases n - visited@.len() + frontier@.len(),
        {
            proof {
                lemma_visited_bound(visited@, self.view_nodes());
            }
            if frontier.len() == 0 {
                proof {
                    assert(beam_done(results@, visited@, Seq::<u64>::empty(),
                    self.view_nodes(), self.spec_metric_of(), query@, layer as int,
                    ef as int));
                }
                return (results, Ghost((visited@, Seq::<u64>::empty())));
            }
            // pop the closest frontier element
            let mut best: usize = 0;
            let mut b: usize = 1;
            while b < frontier.len()
                invariant
                    1 <= b <= frontier@.len(),
                    frontier@.len() >= 1,
                    best < b,
                    forall|i: int|
                        0 <= i < b ==> spec_sort_key(frontier@[best as int].1) <= spec_sort_key(
                            (#[trigger] frontier@[i]).1,
                        ),
                decreases frontier@.len() - b,
            {
                let kb = crate::sort_key(frontier[b].1);
                let kbest = crate::sort_key(frontier[best].1);
                if kb < kbest {
                    best = b;
                }
                b += 1;
            }
            let ghost fr_before = frontier@;
            proof {
                assert(reachable(self.view_nodes(), eps@, layer as int, fr_before[
                    best as int].0));
            }
            let (cid, cd) = frontier.remove(best);
            proof {
                assert(forall|i: int|
                    0 <= i < frontier@.len() ==> #[trigger] frontier@[i] == fr_before[i]
                        || frontier@[i] == fr_before[i + 1]);
                assert(forall|i: int|
                    0 <= i < best ==> #[trigger] frontier@[i] == fr_before[i]);
                assert(forall|i: int|
                    best <= i < frontier@.len() ==> #[trigger] frontier@[i] == fr_before[i
                        + 1]);
                let sv = self.view_nodes();
                let met = self.spec_metric_of();
                assert forall|i: int|
                    0 <= i < visited@.len() implies (in_frontier(#[trigger] visited@[i],
                frontier@) || far_only(visited@[i], results@, sv, met, query@, ef as int)
                    || nbrs_seen(visited@[i], visited@, results@, sv, met, query@,
                layer as int, ef as int) || visited@[i] == cid) by {
                    if in_frontier(visited@[i], fr_before) {
                        let f = choose|f: int|
                            0 <= f < fr_before.len() && (#[trigger] fr_before[f]).0
                                == visited@[i];
                        if f == best {
                            assert(visited@[i] == cid);
                        } else if f < best {
                            assert(frontier@[f] == fr_before[f]);
                            assert(in_frontier(visited@[i], frontier@));
                        } else {
                            assert(frontier@[f - 1] == fr_before[f]);
                            assert(in_frontier(visited@[i], frontier@));
                        }
                    }
                }
            }
            if results.len() >= ef {
                let worst = results[results.len() - 1].1;
                if crate::sort_key(cd) > crate::sort_key(worst) {
                    let ghost unexp = frontier@.map_values(|x: (u64, u32)| x.0).push(cid);
                    proof {
                        let sv = self.view_nodes();
                        let met = self.spec_metric_of();
                        assert(results@.len() == ef);
                        assert(unexp.len() == frontier@.len() + 1);
                        assert forall|i: int|
                            0 <= i < unexp.len() implies far_only(#[trigger] unexp[i],
                        results@, sv, met, query@, ef as int) by {
                            if i < frontier@.len() {
                                assert(unexp[i] == frontier@[i].0);
                                assert(frontier@[i] == fr_before[i] || frontier@[i]
                                    == fr_before[i + 1]);
                                assert(spec_sort_key(fr_before[best as int].1)
                                    <= spec_sort_key(frontier@[i].1));
                                assert(frontier@[i].1 == id_dist(sv, met, query@,
                                frontier@[i].0));
                            } else {
                                assert(unexp[i] == cid);
                                assert(fr_before[best as int].1 == id_dist(sv, met, query@,
                                cid));
                            }
                        }
                        assert forall|i: int|
                            0 <= i < visited@.len() implies (unexp.contains(
                            #[trigger] visited@[i]) || far_only(visited@[i], results@, sv,
                        met, query@, ef as int) || nbrs_seen(visited@[i], visited@,
                        results@, sv, met, query@, layer as int, ef as int)) by {
                            if in_frontier(visited@[i], fr_before) {
                                let f = choose|f: int|
                                    0 <= f < fr_before.len() && (#[trigger] fr_before[f]).0
                                        == visited@[i];
                                if f == best {
                                    assert(unexp[unexp.len() - 1] == cid);
                                    assert(unexp.contains(visited@[i]));
                                } else if f < best {
                                    assert(frontier@[f] == fr_before[f]);
                                    assert(unexp[f] == frontier@[f].0);
                                    assert(unexp.contains(visited@[i]));
                                } else {
                                    assert(frontier@[f - 1] == fr_before[f]);
                                    assert(unexp[f - 1] == frontier@[f - 1].0);
                                    assert(unexp.contains(visited@[i]));
                                }
                            }
                        }
                        assert(beam_done(results@, visited@, unexp, sv, met, query@,
                        layer as int, ef as int));
                    }
                    return (results, Ghost((visited@, unexp)));
                }
            }
            // expand the popped node's neighbors on this layer
            let ni = match self.find(cid) {
                Some(i) => i,
                None => {
                    proof {
                        assert(false);
                    }
                    return (results, Ghost((visited@, Seq::<u64>::empty())));
                },
            };
            let ghost vsnap = visited@.len();
            let ghost fsnap = frontier@.len();
            if layer < self.nodes[ni].neighbors.len() {
                let deg = self.nodes[ni].neighbors[layer].len();
                let mut k: usize = 0;
                while k < deg
                    invariant
                        0 <= k <= deg,
                        ni < self.nodes@.len(),
                        layer < self.nodes@[ni as int].neighbors@.len(),
                        deg == self.view_nodes()[ni as int].neighbors[layer as int].len(),
                        self.wf(),
                        query@.len() == self.spec_dimension(),
                        ef >= 1,
                        n == self.nodes@.len(),
                        visited@.len() - vsnap >= frontier@.len() - fsnap,
                        visited@.len() >= vsnap,
                        seeded ==> results@.len() >= 1,
                        seen_ok(visited@, frontier@, results@, self.view_nodes(),
                        self.spec_metric_of(), query@, layer as int, ef as int),
                        self.view_nodes()[ni as int].id == cid,
                        reachable(self.view_nodes(), eps@, layer as int, cid),
                        forall|i: int|
                            0 <= i < visited@.len() ==> reachable(self.view_nodes(), eps@,
                            layer as int, #[trigger] visited@[i]),
                        forall|i: int|
                            0 <= i < frontier@.len() ==> reachable(self.view_nodes(), eps@,
                            layer as int, (#[trigger] frontier@[i]).0),
                        forall|i: int|
                            0 <= i < results@.len() ==> (#[trigger] results@[i]).1 == id_dist(
                            self.view_nodes(), self.spec_metric_of(), query@, results@[i].0),
                        forall|i: int|
                            0 <= i < frontier@.len() ==> (#[trigger] frontier@[i]).1
                                == id_dist(self.view_nodes(), self.spec_metric_of(), query@,
                            frontier@[i].0),
                        forall|i: int|
                            0 <= i < visited@.len() ==> (kept_hit(#[trigger] visited@[i],
                        results@) || far_only(visited@[i], results@, self.view_nodes(),
                        self.spec_metric_of(), query@, ef as int)),
                        forall|i: int|
                            0 <= i < visited@.len() ==> (in_frontier(#[trigger] visited@[i],
                        frontier@) || far_only(visited@[i], results@, self.view_nodes(),
                        self.spec_metric_of(), query@, ef as int) || nbrs_seen(visited@[i],
                        visited@, results@, self.view_nodes(), self.spec_metric_of(),
                        query@, layer as int, ef as int) || visited@[i] == cid),
                        forall|w: int|
                            0 <= w < k ==> (visited@.contains(
                                #[trigger] self.view_nodes()[ni as int].neighbors[
                                layer as int][w],
                            ) || far_only(
                                self.view_nodes()[ni as int].neighbors[layer as int][w],
                                results@,
                                self.view_nodes(),
                                self.spec_metric_of(),
                                query@,
                                ef as int,
                            )),
                        forall|i: int|
                            0 <= i < eps@.len() && node_with_layer(self.view_nodes(),
                            #[trigger] eps@[i], layer as int) ==> visited@.contains(eps@[i]),
                    decreases deg - k,
                {
                    let nb = self.nodes[ni].neighbors[layer][k];
                    if !contains_id(&visited, nb) {
                        proof {
                            assert(self.view_nodes()[ni as int].neighbors[layer as int][k
                                as int] == nb);
                            assert(exists|j: int|
                                0 <= j < self.view_nodes().len() && (
                                #[trigger] self.view_nodes()[j]).id == nb && (layer as int)
                                    < self.view_nodes()[j].neighbors.len()
                                    && self.view_nodes()[j].neighbors[layer as int].contains(
                                    self.view_nodes()[ni as int].id,
                                ));
                        }
                        let nbi = match self.find(nb) {
                            Some(i) => i,
                            None => {
                                proof {
                                    assert(false);
                                }
                                return (results, Ghost((visited@, Seq::<u64>::empty())));
                            },
                        };
                        proof {
                            assert((layer as int) < self.view_nodes()[nbi as int].neighbors.len())
                                by {
                                let j = choose|j: int|
                                    0 <= j < self.view_nodes().len() && (
                                    #[trigger] self.view_nodes()[j]).id == nb && (layer as int)
                                        < self.view_nodes()[j].neighbors.len()
                                        && self.view_nodes()[j].neighbors[layer as int].contains(
                                        self.view_nodes()[ni as int].id,
                                    );
                                if j < nbi {
                                    assert(self.view_nodes()[j].id
                                        == self.view_nodes()[nbi as int].id);
                                } else if nbi < j {
                                    assert(self.view_nodes()[nbi as int].id
                                        == self.view_nodes()[j].id);
                                }
                            }
                        }
                        let d = self.metric.compute(query, self.nodes[nbi].vector.as_slice());
                        let should = if results.len() < ef {
                            true
                        } else {
                            let worst = results[results.len() - 1].1;
                            crate::sort_key(d) < crate::sort_key(worst)
                        };
                        if should {
                            let ghost pre_v = visited@;
                            let ghost pre_r = results@;
                            let ghost pre_f = frontier@;
                            proof {
                                let sv = self.view_nodes();
                                assert(has_edge(sv, layer as int, ni as int, nb)) by {
                                    assert(sv[ni as int].neighbors[layer as int][k as int]
                                        == nb);
                                }
                                let nn = choose|nn: nat|
                                    reach_n(sv, eps@, layer as int, cid, nn);
                                assert(reach_n(sv, eps@, layer as int, sv[ni as int].id, nn));
                                assert(reach_n(sv, eps@, layer as int, nb, nn + 1));
                                assert(reachable(sv, eps@, layer as int, nb));
                                assert(forall|k: int| 0 <= k < pre_v.len() ==> pre_v[k] != nb);
                                assert(self.view_nodes()[nbi as int].id == nb);
                                assert(result_entry_ok((nb, d), self.view_nodes(),
                                self.spec_metric_of(), query@, layer as int));
                                assert forall|i: int|
                                    0 <= i < pre_r.len() implies (#[trigger] pre_r[i]).0
                                    != nb by {
                                    assert(pre_v.contains(pre_r[i].0));
                                    let k = choose|k: int|
                                        0 <= k < pre_v.len() && pre_v[k] == pre_r[i].0;
                                }
                            }
                            visited.push(nb);
                            frontier.push((nb, d));
                            insert_result(&mut results, (nb, d), ef);
                            proof {
                                assert(visited@ =~= pre_v.push(nb));
                                assert forall|i: int|
                                    0 <= i < visited@.len() implies reachable(
                                    self.view_nodes(), eps@, layer as int,
                                    #[trigger] visited@[i]) by {
                                    if i < pre_v.len() {
                                        assert(visited@[i] == pre_v[i]);
                                    } else {
                                        assert(visited@[i] == nb);
                                    }
                                }
                                assert(frontier@ =~= pre_f.push((nb, d)));
                                assert forall|i: int|
                                    0 <= i < frontier@.len() implies reachable(
                                    self.view_nodes(), eps@, layer as int, (
                                    #[trigger] frontier@[i]).0) by {
                                    if i < pre_f.len() {
                                        assert(frontier@[i] == pre_f[i]);
                                    } else {
                                        assert(frontier@[i] == (nb, d));
                                    }
                                }
                                assert forall|i: int|
                                    0 <= i < results@.len() implies visited@.contains(
                                    (#[trigger] results@[i]).0) && result_entry_ok(results@[i],
                                    self.view_nodes(), self.spec_metric_of(), query@,
                                    layer as int) by {
                                    if in_seq(results@[i], pre_r) {
                                        let w = choose|w: int|
                                            0 <= w < pre_r.len() && #[trigger] pre_r[w]
                                                == results@[i];
                                        assert(pre_v.contains(pre_r[w].0));
                                        let k = choose|k: int|
                                            0 <= k < pre_v.len() && pre_v[k] == pre_r[w].0;
                                        assert(visited@[k] == results@[i].0);
                                        assert(result_entry_ok(pre_r[w], self.view_nodes(),
                                        self.spec_metric_of(), query@, layer as int));
                                    } else {
                                        assert(results@[i] == (nb, d));
                                        assert(visited@.last() == nb);
                                    }
                                }
                                assert forall|i: int|
                                    0 <= i < visited@.len() implies exists|j: int|
                                    0 <= j < self.view_nodes().len() && (
                                    #[trigger] self.view_nodes()[j]).id
                                        == #[trigger] visited@[i] by {
                                    if i < pre_v.len() {
                                        assert(visited@[i] == pre_v[i]);
                                    } else {
                                        assert(visited@[i] == nb);
                                        assert(self.view_nodes()[nbi as int].id == nb);
                                    }
                                }
                                let sv = self.view_nodes();
                                let met = self.spec_metric_of();
                                lemma_id_dist(sv, met, query@, (nb, d), layer as int);
                                assert(beam_step(pre_r, results@, ef as int));
                                assert forall|i: int|
                                    0 <= i < results@.len() implies (#[trigger] results@[
                                i]).1 == id_dist(sv, met, query@, results@[i].0) by {
                                    if in_seq(results@[i], pre_r) {
                                        let w = choose|w: int|
                                            0 <= w < pre_r.len() && #[trigger] pre_r[w]
                                                == results@[i];
                                    } else {
                                        assert(results@[i] == (nb, d));
                                    }
                                }
                                assert forall|i: int|
                                    0 <= i < frontier@.len() implies (#[trigger] frontier@[
                                i]).1 == id_dist(sv, met, query@, frontier@[i].0) by {
                                    if i < pre_f.len() {
                                        assert(frontier@[i] == pre_f[i]);
                                    } else {
                                        assert(frontier@[i] == (nb, d));
                                    }
                                }
                                assert forall|i: int|
                                    0 <= i < visited@.len() implies (kept_hit(
                                    #[trigger] visited@[i], results@) || far_only(
                                    visited@[i],
                                    results@,
                                    sv,
                                    met,
                                    query@,
                                    ef as int,
                                )) by {
                                    if i < pre_v.len() {
                                        assert(visited@[i] == pre_v[i]);
                                        lemma_kept_preserved(pre_v[i], pre_r, results@, sv,
                                        met, query@, ef as int);
                                    } else {
                                        assert(visited@[i] == nb);
                                        if in_seq((nb, d), results@) {
                                            let w = choose|w: int|
                                                0 <= w < results@.len()
                                                    && #[trigger] results@[w] == (nb, d);
                                            assert(kept_hit(nb, results@));
                                        } else {
                                            assert(far_only(nb, results@, sv, met, query@,
                                            ef as int));
                                        }
                                    }
                                }
                                assert forall|i: int|
                                    0 <= i < visited@.len() implies (in_frontier(
                                    #[trigger] visited@[i], frontier@) || far_only(
                                    visited@[i],
                                    results@,
                                    sv,
                                    met,
                                    query@,
                                    ef as int,
                                ) || nbrs_seen(visited@[i], visited@, results@, sv, met,
                                query@, layer as int, ef as int) || visited@[i] == cid) by {
                                    if i < pre_v.len() {
                                        assert(visited@[i] == pre_v[i]);
                                        if pre_v[i] == cid {
                                        } else if in_frontier(pre_v[i], pre_f) {
                                            let f = choose|f: int|
                                                0 <= f < pre_f.len() && (
                                                #[trigger] pre_f[f]).0 == pre_v[i];
                                            assert(frontier@[f] == pre_f[f]);
                                            assert(in_frontier(visited@[i], frontier@));
                                        } else if far_only(pre_v[i], pre_r, sv, met, query@,
                                        ef as int) {
                                            lemma_far_preserved(pre_v[i], pre_r, results@,
                                            sv, met, query@, ef as int);
                                        } else {
                                            lemma_nbrs_preserved(pre_v[i], pre_v, visited@,
                                            pre_r, results@, sv, met, query@, layer as int,
                                            ef as int);
                                        }
                                    } else {
                                        assert(visited@[i] == nb);
                                        assert(frontier@[pre_f.len() as int].0 == nb);
                                        assert(in_frontier(nb, frontier@));
                                    }
                                }
                                assert forall|w: int|
                                    0 <= w < k + 1 implies (visited@.contains(
                                    #[trigger] sv[ni as int].neighbors[layer as int][w])
                                    || far_only(sv[ni as int].neighbors[layer as int][w],
                                results@, sv, met, query@, ef as int)) by {
                                    if w < k {
                                        if pre_v.contains(sv[ni as int].neighbors[
                                        layer as int][w]) {
                                            let x = choose|x: int|
                                                0 <= x < pre_v.len() && pre_v[x] == sv[ni
                                                    as int].neighbors[layer as int][w];
                                            assert(visited@[x] == sv[ni
                                                as int].neighbors[layer as int][w]);
                                        } else {
                                            lemma_far_preserved(sv[ni
                                                as int].neighbors[layer as int][w], pre_r,
                                            results@, sv, met, query@, ef as int);
                                        }
                                    } else {
                                        assert(sv[ni as int].neighbors[layer as int][w]
                                            == nb);
                                        assert(visited@[visited@.len() - 1] == nb);
                                    }
                                }
                                assert forall|i: int|
                                    0 <= i < eps@.len() && node_with_layer(sv,
                                    #[trigger] eps@[i], layer as int) implies visited@.contains(
                                    eps@[i],
                                ) by {
                                    assert(pre_v.contains(eps@[i]));
                                    let x = choose|x: int|
                                        0 <= x < pre_v.len() && pre_v[x] == eps@[i];
                                    assert(visited@[x] == eps@[i]);
                                }
                            }
                        } else {
                            let ghost pre_v = visited@;
                            proof {
                                let sv = self.view_nodes();
                                assert(has_edge(sv, layer as int, ni as int, nb)) by {
                                    assert(sv[ni as int].neighbors[layer as int][k as int]
                                        == nb);
                                }
                                let nn = choose|nn: nat|
                                    reach_n(sv, eps@, layer as int, cid, nn);
                                assert(reach_n(sv, eps@, layer as int, sv[ni as int].id, nn));
                                assert(reach_n(sv, eps@, layer as int, nb, nn + 1));
                                assert(reachable(sv, eps@, layer as int, nb));
                                assert(forall|k: int| 0 <= k < pre_v.len() ==> pre_v[k] != nb);
                                assert(self.view_nodes()[nbi as int].id == nb);
                            }
                            visited.push(nb);
                            proof {
                                assert(visited@ =~= pre_v.push(nb));
                                assert forall|i: int|
                                    0 <= i < visited@.len() implies reachable(
                                    self.view_nodes(), eps@, layer as int,
                                    #[trigger] visited@[i]) by {
                                    if i < pre_v.len() {
                                        assert(visited@[i] == pre_v[i]);
                                    } else {
                                        assert(visited@[i] == nb);
                                    }
                                }
                                assert forall|i: int|
                                    0 <= i < results@.len() implies visited@.contains(
                                    (#[trigger] results@[i]).0) by {
                                    assert(pre_v.contains(results@[i].0));
                                    let k = choose|k: int|
                                        0 <= k < pre_v.len() && pre_v[k] == results@[i].0;
                                    assert(visited@[k] == results@[i].0);
                                }
                                assert forall|i: int|
                                    0 <= i < visited@.len() implies exists|j: int|
                                    0 <= j < self.view_nodes().len() && (
                                    #[trigger] self.view_nodes()[j]).id
                                        == #[trigger] visited@[i] by {
                                    if i < pre_v.len() {
                                        assert(visited@[i] == pre_v[i]);
                                    } else {
                                        assert(visited@[i] == nb);
                                        assert(self.view_nodes()[nbi as int].id == nb);
                                    }
                                }
                                let sv = self.view_nodes();
                                let met = self.spec_metric_of();
                                lemma_id_dist(sv, met, query@, (nb, d), layer as int);
                                assert(results@.len() == ef);
                                assert(far_only(nb, results@, sv, met, query@, ef as int));
                                assert(beam_step(results@, results@, ef as int)) by {
                                    assert(forall|i: int|
                                        0 <= i < results@.len() ==> in_seq(
                                            #[trigger] results@[i],
                                            results@,
                                        ));
                                }
                                assert forall|i: int|
                                    0 <= i < visited@.len() implies (kept_hit(
                                    #[trigger] visited@[i], results@) || far_only(
                                    visited@[i],
                                    results@,
                                    sv,
                                    met,
                                    query@,
                                    ef as int,
                                )) by {
                                    if i < pre_v.len() {
                                        assert(visited@[i] == pre_v[i]);
                                    } else {
                                        assert(visited@[i] == nb);
                                    }
                                }
                                assert forall|i: int|
                                    0 <= i < visited@.len() implies (in_frontier(
                                    #[trigger] visited@[i], frontier@) || far_only(
                                    visited@[i],
                                    results@,
                                    sv,
                                    met,
                                    query@,
                                    ef as int,
                                ) || nbrs_seen(visited@[i], visited@, results@, sv, met,
                                query@, layer as int, ef as int) || visited@[i] == cid) by {
                                    if i < pre_v.len() {
                                        assert(visited@[i] == pre_v[i]);
                                        if pre_v[i] == cid {
                                        } else if in_frontier(pre_v[i], frontier@) {
                                        } else if far_only(pre_v[i], results@, sv, met,
                                        query@, ef as int) {
                                        } else {
                                            lemma_nbrs_preserved(pre_v[i], pre_v, visited@,
                                            results@, results@, sv, met, query@,
                                            layer as int, ef as int);
                                        }
                                    } else {
                                        assert(visited@[i] == nb);
                                    }
                                }
                                assert forall|w: int|
                                    0 <= w < k + 1 implies (visited@.contains(
                                    #[trigger] sv[ni as int].neighbors[layer as int][w])
                                    || far_only(sv[ni as int].neighbors[layer as int][w],
                                results@, sv, met, query@, ef as int)) by {
                                    if w < k {
                                        if pre_v.contains(sv[ni as int].neighbors[
                                        layer as int][w]) {
                                            let x = choose|x: int|
                                                0 <= x < pre_v.len() && pre_v[x] == sv[ni
                                                    as int].neighbors[layer as int][w];
                                            assert(visited@[x] == sv[ni
                                                as int].neighbors[layer as int][w]);
                                        }
                                    } else {
                                        assert(sv[ni as int].neighbors[layer as int][w]
                                            == nb);
                                        assert(visited@[visited@.len() - 1] == nb);
                                    }
                                }
                                assert forall|i: int|
                                    0 <= i < eps@.len() && node_with_layer(sv,
                                    #[trigger] eps@[i], layer as int) implies visited@.contains(
                                    eps@[i],
                                ) by {
                                    assert(pre_v.contains(eps@[i]));
                                    let x = choose|x: int|
                                        0 <= x < pre_v.len() && pre_v[x] == eps@[i];
                                    assert(visited@[x] == eps@[i]);
                                }
                            }
                        }
                    }
                    k += 1;
                }
                proof {
                    let sv = self.view_nodes();
                    let met = self.spec_metric_of();
                    assert forall|w: u64| #[trigger] nbr_of(sv, layer as int, cid, w) implies
                        visited@.contains(w) || far_only(w, results@, sv, met, query@,
                    ef as int) by {
                        let j = choose|j: int|
                            0 <= j < sv.len() && (#[trigger] sv[j]).id == cid && (layer as int)
                                < sv[j].neighbors.len() && sv[j].neighbors[
                            layer as int].contains(w);
                        if j < ni {
                            assert(sv[j].id != sv[ni as int].id);
                        } else if ni < j {
                            assert(sv[ni as int].id != sv[j].id);
                        }
                        assert(j == ni);
                        let idx = choose|idx: int|
                            0 <= idx < sv[ni as int].neighbors[layer as int].len() && sv[ni
                                as int].neighbors[layer as int][idx] == w;
                        assert(0 <= idx < k);
                    }
                    assert(nbrs_seen(cid, visited@, results@, sv, met, query@, layer as int,
                    ef as int));
                }
            } else {
                proof {
                    let sv = self.view_nodes();
                    let met = self.spec_metric_of();
                    assert forall|w: u64| #[trigger] nbr_of(sv, layer as int, cid, w) implies
                        visited@.contains(w) || far_only(w, results@, sv, met, query@,
                    ef as int) by {
                        let j = choose|j: int|
                            0 <= j < sv.len() && (#[trigger] sv[j]).id == cid && (layer as int)
                                < sv[j].neighbors.len() && sv[j].neighbors[
                            layer as int].contains(w);
                        if j < ni {
                            assert(sv[j].id != sv[ni as int].id);
                        } else if ni < j {
                            assert(sv[ni as int].id != sv[j].id);
                        }
                    }
                    assert(nbrs_seen(cid, visited@, results@, sv, met, query@, layer as int,
                    ef as int));
                }
            }
            proof {
                lemma_visited_bound(visited@, self.view_nodes());
                assert(visited@.len() - vsnap >= frontier@.len() - fsnap);
                assert forall|i: int|
                    0 <= i < visited@.len() implies (in_frontier(#[trigger] visited@[i],
                frontier@) || far_only(visited@[i], results@, self.view_nodes(),
                self.spec_metric_of(), query@, ef as int) || nbrs_seen(visited@[i], visited@,
                results@, self.view_nodes(), self.spec_metric_of(), query@, layer as int,
                ef as int)) by {}
            }
        }
    }
}

/// A node holding `id` is present and has the layer.
pub open spec fn node_with_layer(s: Seq<NodeView>, id: u64, layer: int) -> bool {
    exists|j: int|
        0 <= j < s.len() && (#[trigger] s[j]).id == id && layer < s[j].neighbors.len()
}

/// Every stored payload passes the filter, or there is no filter.
pub open spec fn filter_total(s: Seq<NodeView>, filter: Option<Filter>) -> bool {
    match filter {
        Some(f) => forall|m: int|
            0 <= m < s.len() ==> filter_matches(f, (#[trigger] s[m]).payload),
        None => true,
    }
}

/// The node at position `j` has an edge to `id` on the layer.
pub open spec fn has_edge(s: Seq<NodeView>, layer: int, j: int, id: u64) -> bool {
    &&& layer < s[j].neighbors.len()
    &&& exists|w: int|
        0 <= w < s[j].neighbors[layer].len() && #[trigger] s[j].neighbors[layer][w] == id
}

/// `id` can be reached from one of the entry points along edges of the
/// layer in at most `n` hops.
pub open spec fn reach_n(s: Seq<NodeView>, eps: Seq<u64>, layer: int, id: u64, n: nat) -> bool
    decreases n,
{
    if n == 0 {
        eps.contains(id)
    } else {
        reach_n(s, eps, layer, id, (n - 1) as nat) || (exists|j: int|
            0 <= j < s.len() && reach_n(s, eps, layer, (#[trigger] s[j]).id, (n - 1) as nat)
                && has_edge(s, layer, j, id))
    }
}

/// `id` is reachable from the entry points along the layer's edges.
pub open spec fn reachable(s: Seq<NodeView>, eps: Seq<u64>, layer: int, id: u64) -> bool {
    exists|n: nat| reach_n(s, eps, layer, id, n)
}

/// The distance from the query to the present node holding `id`.
pub open spec fn id_dist(s: Seq<NodeView>, metric: DistanceMetric, q: Seq<u32>, id: u64) -> u32 {
    let j = choose|j: int| 0 <= j < s.len() && (#[trigger] s[j]).id == id;
    spec_metric(metric, q, s[j].vector)
}

/// The node holding `v` has an edge to `w` on the layer.
pub open spec fn nbr_of(s: Seq<NodeView>, layer: int, v: u64, w: u64) -> bool {
    exists|j: int|
        0 <= j < s.len() && (#[trigger] s[j]).id == v && layer < s[j].neighbors.len()
            && s[j].neighbors[layer].contains(w)
}

/// With distinct identifiers, a well-formed hit's recorded distance is the
/// distance of its node.
proof fn lemma_id_dist(
    s: Seq<NodeView>,
    metric: DistanceMetric,
    q: Seq<u32>,
    x: (u64, u32),
    layer: int,
)
    requires
        forall|i: int, j: int|
            0 <= i < j < s.len() ==> (#[trigger] s[i]).id != (#[trigger] s[j]).id,
        result_entry_ok(x, s, metric, q, layer),
    ensures
        id_dist(s, metric, q, x.0) == x.1,
{
    let j2 = choose|j: int|
        0 <= j < s.len() && (#[trigger] s[j]).id == x.0 && layer < s[j].neighbors.len() && x.1
            == spec_metric(metric, q, s[j].vector);
    let j1 = choose|j: int| 0 <= j < s.len() && (#[trigger] s[j]).id == x.0;
    assert(0 <= j1 < s.len() && s[j1].id == x.0);
    if j1 < j2 {
        assert(s[j1].id != s[j2].id);
    } else if j2 < j1 {
        assert(s[j2].id != s[j1].id);
    }
    assert(j1 == j2);
}

/// The beam holds `v` among its hits.
pub open spec fn kept_hit(v: u64, r: Seq<(u64, u32)>) -> bool {
    exists|w: int| 0 <= w < r.len() && (#[trigger] r[w]).0 == v
}

/// The hit list is full and `v`'s node lies no closer than the worst hit.
pub open spec fn far_only(
    v: u64,
    r: Seq<(u64, u32)>,
    s: Seq<NodeView>,
    metric: DistanceMetric,
    q: Seq<u32>,
    ef: int,
) -> bool {
    r.len() == ef && r.len() >= 1 && spec_sort_key(id_dist(s, metric, q, v)) >= spec_sort_key(
        r[r.len() - 1].1,
    )
}

/// Every layer neighbor of `v`'s node was visited or lies no closer than
/// the worst hit.
pub open spec fn nbrs_seen(
    v: u64,
    visited: Seq<u64>,
    r: Seq<(u64, u32)>,
    s: Seq<NodeView>,
    metric: DistanceMetric,
    q: Seq<u32>,
    layer: int,
    ef: int,
) -> bool {
    forall|w: u64|
        #[trigger] nbr_of(s, layer, v, w) ==> visited.contains(w) || far_only(w, r, s, metric,
        q, ef)
}

/// A frontier entry names `v`.
pub open spec fn in_frontier(v: u64, frontier: Seq<(u64, u32)>) -> bool {
    exists|f: int| 0 <= f < frontier.len() && (#[trigger] frontier[f]).0 == v
}

/// What a finished beam search guarantees, beyond the hits themselves:
/// every hit was visited; every visited node is a hit or lies no closer
/// than the worst hit; every visited node was left unexpanded, or ruled
/// out by distance, or had every layer neighbor visited or ruled out;
/// and every unexpanded node lies no closer than the worst hit. So no
/// candidate one step from an expanded node beats a hit without itself
/// being kept, visited, or ruled out by distance.
pub open spec fn beam_done(
    r: Seq<(u64, u32)>,
    visited: Seq<u64>,
    unexp: Seq<u64>,
    s: Seq<NodeView>,
    metric: DistanceMetric,
    q: Seq<u32>,
    layer: int,
    ef: int,
) -> bool {
    &&& (forall|i: int| 0 <= i < r.len() ==> visited.contains((#[trigger] r[i]).0))
    &&& (forall|i: int|
        0 <= i < visited.len() ==> (kept_hit(#[trigger] visited[i], r) || far_only(visited[i],
        r, s, metric, q, ef)))
    &&& (forall|i: int|
        0 <= i < visited.len() ==> (unexp.contains(#[trigger] visited[i]) || far_only(
            visited[i],
            r,
            s,
            metric,
            q,
            ef,
        ) || nbrs_seen(visited[i], visited, r, s, metric, q, layer, ef)))
    &&& (forall|i: int| 0 <= i < unexp.len() ==> far_only(#[trigger] unexp[i], r, s, metric, q, ef))
}

/// Facts `insert_result` leaves between an old and a new hit list.
pub open spec fn beam_step(pre: Seq<(u64, u32)>, post: Seq<(u64, u32)>, ef: int) -> bool {
    &&& (forall|i: int|
        0 <= i < pre.len() ==> in_seq(#[trigger] pre[i], post) || (post.len() == ef
            && spec_sort_key(pre[i].1) >= spec_sort_key(post[ef - 1].1)))
    &&& (pre.len() == ef ==> post.len() == ef && spec_sort_key(post[ef - 1].1) <= spec_sort_key(
        pre[ef - 1].1,
    ))
    &&& post.len() >= pre.len()
    &&& post.len() <= ef
}

/// Being kept or ruled out survives one beam insertion.
proof fn lemma_kept_preserved(
    v: u64,
    pre: Seq<(u64, u32)>,
    post: Seq<(u64, u32)>,
    s: Seq<NodeView>,
    metric: DistanceMetric,
    q: Seq<u32>,
    ef: int,
)
    requires
        ef >= 1,
        kept_hit(v, pre) || far_only(v, pre, s, metric, q, ef),
        beam_step(pre, post, ef),
        forall|i: int|
            0 <= i < pre.len() ==> (#[trigger] pre[i]).1 == id_dist(s, metric, q, pre[i].0),
    ensures
        kept_hit(v, post) || far_only(v, post, s, metric, q, ef),
{
    if kept_hit(v, pre) {
        let w = choose|w: int| 0 <= w < pre.len() && (#[trigger] pre[w]).0 == v;
        let e = pre[w];
        if in_seq(e, post) {
            let x = choose|x: int| 0 <= x < post.len() && #[trigger] post[x] == e;
            assert(kept_hit(v, post));
        } else {
            assert(post.len() == ef && spec_sort_key(e.1) >= spec_sort_key(post[ef - 1].1));
            assert(e.1 == id_dist(s, metric, q, v));
            assert(far_only(v, post, s, metric, q, ef));
        }
    } else {
        assert(pre.len() == ef);
        assert(post.len() == ef);
        assert(spec_sort_key(post[ef - 1].1) <= spec_sort_key(pre[ef - 1].1));
        assert(far_only(v, post, s, metric, q, ef));
    }
}

/// Being ruled out survives one beam insertion.
proof fn lemma_far_preserved(
    v: u64,
    pre: Seq<(u64, u32)>,
    post: Seq<(u64, u32)>,
    s: Seq<NodeView>,
    metric: DistanceMetric,
    q: Seq<u32>,
    ef: int,
)
    requires
        ef >= 1,
        far_only(v, pre, s, metric, q, ef),
        beam_step(pre, post, ef),
    ensures
        far_only(v, post, s, metric, q, ef),
{
    assert(post.len() == ef);
    assert(spec_sort_key(post[ef - 1].1) <= spec_sort_key(pre[ef - 1].1));
}

/// Having all neighbors seen survives one beam insertion and a growing
/// visited set.
proof fn lemma_nbrs_preserved(
    v: u64,
    vis_pre: Seq<u64>,
    vis_post: Seq<u64>,
    pre: Seq<(u64, u32)>,
    post: Seq<(u64, u32)>,
    s: Seq<NodeView>,
    metric: DistanceMetric,
    q: Seq<u32>,
    layer: int,
    ef: int,
)
    requires
        ef >= 1,
        nbrs_seen(v, vis_pre, pre, s, metric, q, layer, ef),
        beam_step(pre, post, ef),
        forall|i: int| 0 <= i < vis_pre.len() ==> vis_post[i] == vis_pre[i],
        vis_post.len() >= vis_pre.len(),
    ensures
        nbrs_seen(v, vis_post, post, s, metric, q, layer, ef),
{
    assert forall|w: u64| #[trigger] nbr_of(s, layer, v, w) implies vis_post.contains(w)
        || far_only(w, post, s, metric, q, ef) by {
        if vis_pre.contains(w) {
            let x = choose|x: int| 0 <= x < vis_pre.len() && vis_pre[x] == w;
            assert(vis_post[x] == w);
        } else {
            lemma_far_preserved(w, pre, post, s, metric, q, ef);
        }
    }
}

/// One search hit is a present node with its exact distance, and it has the
/// layer.
pub open spec fn result_entry_ok(
    x: (u64, u32),
    s: Seq<NodeView>,
    metric: DistanceMetric,
    q: Seq<u32>,
    layer: int,
) -> bool {
    exists|j: int|
        0 <= j < s.len() && (#[trigger] s[j]).id == x.0 && layer < s[j].neighbors.len() && x.1
            == spec_metric(metric, q, s[j].vector)
}

/// The joint invariant of the beam-search working sets.
pub open spec fn seen_ok(
    visited: Seq<u64>,
    frontier: Seq<(u64, u32)>,
    results: Seq<(u64, u32)>,
    s: Seq<NodeView>,
    metric: DistanceMetric,
    q: Seq<u32>,
    layer: int,
    ef: int,
) -> bool {
    &&& (forall|i: int, j: int|
        0 <= i < j < visited.len() ==> #[trigger] visited[i] != #[trigger] visited[j])
    &&& (forall|i: int|
        0 <= i < visited.len() ==> exists|j: int|
            0 <= j < s.len() && (#[trigger] s[j]).id == #[trigger] visited[i])
    &&& (forall|i: int|
        0 <= i < frontier.len() ==> result_entry_ok(#[trigger] frontier[i], s, metric, q, layer))
    &&& (forall|i: int|
        0 <= i < results.len() ==> result_entry_ok(#[trigger] results[i], s, metric, q, layer))
    &&& (forall|i: int, j: int|
        0 <= i < j < results.len() ==> spec_sort_key((#[trigger] results[i]).1) <= spec_sort_key(
            (#[trigger] results[j]).1,
        ))
    &&& (forall|i: int, j: int|
        0 <= i < j < results.len() ==> (#[trigger] results[i]).0 != (#[trigger] results[j]).0)
    &&& (forall|i: int| 0 <= i < results.len() ==> visited.contains((#[trigger] results[i]).0))
    &&& results.len() <= ef
}

/// Distinct visited identifiers of present nodes are no more numerous than
/// the nodes.
proof fn lemma_visited_bound(visited: Seq<u64>, s: Seq<NodeView>)
    requires
        forall|i: int, j: int|
            0 <= i < j < visited.len() ==> #[trigger] visited[i] != #[trigger] visited[j],
        forall|i: int|
            0 <= i < visited.len() ==> exists|j: int|
                0 <= j < s.len() && (#[trigger] s[j]).id == #[trigger] visited[i],
    ensures
        visited.len() <= s.len(),
{
    let ids = s.map_values(|n: NodeView| n.id);
    assert(visited.to_set().len() == visited.len()) by {
        visited.unique_seq_to_set();
    }
    assert(visited.to_set().subset_of(ids.to_set())) by {
        assert forall|x: u64| visited.to_set().contains(x) implies ids.to_set().contains(x) by {
            let i = choose|i: int| 0 <= i < visited.len() && visited[i] == x;
            let j = choose|j: int| 0 <= j < s.len() && s[j].id == x;
            assert(ids[j] == x);
            assert(ids.contains(x));
        }
    }
    assert(ids.to_set().len() <= ids.len()) by {
        ids.lemma_cardinality_of_set();
    }
    vstd::set_lib::lemma_len_subset(visited.to_set(), ids.to_set());
}

/// Linear membership scan.
fn contains_id(v: &Vec<u64>, x: u64) -> (r: bool)
    ensures
        r == v@.contains(x),
{
    let mut i: usize = 0;
    while i < v.len()
        invariant
            0 <= i <= v@.len(),
            forall|k: int| 0 <= k < i ==> v@[k] != x,
        decreases v@.len() - i,
    {
        if v[i] == x {
            return true;
        }
        i += 1;
    }
    proof {
        if v@.contains(x) {
            let k = choose|k: int| 0 <= k < v@.len() && v@[k] == x;
            assert(false);
        }
    }
    false
}

/// Inserts a hit into the sorted result list and trims it to `ef`.
fn insert_result(results: &mut Vec<(u64, u32)>, item: (u64, u32), ef: usize)
    requires
        ef >= 1,
        forall|i: int, j: int|
            0 <= i < j < old(results)@.len() ==> spec_sort_key((#[trigger] old(results)@[i]).1)
                <= spec_sort_key((#[trigger] old(results)@[j]).1),
        forall|i: int, j: int|
            0 <= i < j < old(results)@.len() ==> (#[trigger] old(results)@[i]).0 != (
            #[trigger] old(results)@[j]).0,
        forall|i: int| 0 <= i < old(results)@.len() ==> (#[trigger] old(results)@[i]).0 != item.0,
        old(results)@.len() <= ef,
    ensures
        forall|i: int, j: int|
            0 <= i < j < final(results)@.len() ==> spec_sort_key(
                (#[trigger] final(results)@[i]).1,
            ) <= spec_sort_key((#[trigger] final(results)@[j]).1),
        forall|i: int, j: int|
            0 <= i < j < final(results)@.len() ==> (#[trigger] final(results)@[i]).0 != (
            #[trigger] final(results)@[j]).0,
        final(results)@.len() <= ef,
        final(results)@.len() >= 1,
        final(results)@.len() >= old(results)@.len(),
        forall|i: int|
            0 <= i < final(results)@.len() ==> in_seq(#[trigger] final(results)@[i],
            old(results)@) || final(results)@[i] == item,
        old(results)@.len() == ef ==> final(results)@.len() == ef && spec_sort_key(
            final(results)@[ef - 1].1,
        ) <= spec_sort_key(old(results)@[ef - 1].1),
        forall|i: int|
            0 <= i < old(results)@.len() ==> in_seq(#[trigger] old(results)@[i],
            final(results)@) || (final(results)@.len() == ef && spec_sort_key(
                old(results)@[i].1,
            ) >= spec_sort_key(final(results)@[ef - 1].1)),
        in_seq(item, final(results)@) || (final(results)@.len() == ef && spec_sort_key(item.1)
            >= spec_sort_key(final(results)@[ef - 1].1)),
{
    let n = results.len();
    let mut p: usize = 0;
    let mut stop = false;
    let ki = crate::sort_key(item.1);
    while p < n && !stop
        invariant
            0 <= p <= n,
            n == results@.len(),
            *results == *old(results),
            ki == spec_sort_key(item.1),
            forall|i: int|
                0 <= i < p ==> spec_sort_key((#[trigger] results@[i]).1) <= spec_sort_key(
                    item.1,
                ),
            stop ==> p < n && spec_sort_key(results@[p as int].1) > spec_sort_key(item.1),
        decreases n - p + (if stop {
            0int
        } else {
            1int
        }),
    {
        let kp = crate::sort_key(results[p].1);
        if kp > ki {
            stop = true;
        } else {
            p += 1;
        }
    }
    proof {
        if stop {
            assert(forall|i: int|
                p <= i < results@.len() ==> spec_sort_key((#[trigger] results@[i]).1)
                    >= spec_sort_key(item.1)) by {
                assert(forall|i: int|
                    p < i < results@.len() ==> spec_sort_key(results@[p as int].1)
                        <= spec_sort_key((#[trigger] results@[i]).1));
            }
        }
    }
    let ghost mid0 = results@;
    results.insert(p, item);
    proof {
        assert(forall|i: int| 0 <= i < p ==> #[trigger] results@[i] == mid0[i]);
        assert(results@[p as int] == item);
        assert(forall|i: int|
            p < i < results@.len() ==> #[trigger] results@[i] == mid0[i - 1]);
        assert(forall|i: int|
            0 <= i < results@.len() ==> in_seq(#[trigger] results@[i], mid0) || results@[i]
                == item) by {
            assert(forall|i: int|
                0 <= i < p ==> #[trigger] results@[i] == mid0[i] && 0 <= i < mid0.len());
            assert(forall|i: int|
                p < i < results@.len() ==> #[trigger] results@[i] == mid0[i - 1] && 0 <= i - 1
                    < mid0.len());
        }
    }
    if results.len() > ef {
        let ghost before = results@;
        let _ = results.pop();
        proof {
            assert(results@ =~= before.take(before.len() - 1));
            assert(n == ef);
            assert(results@.len() == ef);
            assert forall|i: int|
                0 <= i < mid0.len() implies in_seq(#[trigger] mid0[i], results@) || (
            results@.len() == ef && spec_sort_key(mid0[i].1) >= spec_sort_key(
                results@[ef - 1].1,
            )) by {
                if i < p {
                    assert(results@[i] == before[i] && before[i] == mid0[i]);
                } else if i < ef - 1 {
                    assert(results@[i + 1] == before[i + 1] && before[i + 1] == mid0[i]);
                } else {
                    if p < ef {
                        if p == ef - 1 {
                            assert(results@[ef - 1] == before[ef - 1] && before[ef - 1]
                                == item);
                            assert(spec_sort_key(mid0[p as int].1) > spec_sort_key(item.1));
                        } else {
                            assert(results@[ef - 1] == before[ef - 1] && before[ef - 1]
                                == mid0[ef - 2]);
                            assert(spec_sort_key(mid0[ef - 2].1) <= spec_sort_key(
                                mid0[ef - 1].1,
                            ));
                        }
                    } else {
                        assert(results@[i] == before[i] && before[i] == mid0[i]);
                    }
                }
            }
            if p < ef {
                assert(results@[p as int] == before[p as int] && before[p as int] == item);
                assert(in_seq(item, results@));
                if p == ef - 1 {
                    assert(spec_sort_key(mid0[p as int].1) > spec_sort_key(item.1));
                    assert(spec_sort_key(results@[ef - 1].1) <= spec_sort_key(
                        mid0[ef - 1].1,
                    ));
                } else {
                    assert(results@[ef - 1] == before[ef - 1] && before[ef - 1] == mid0[ef
                        - 2]);
                    assert(spec_sort_key(mid0[ef - 2].1) <= spec_sort_key(mid0[ef - 1].1));
                }
            } else {
                assert(forall|i: int|
                    0 <= i < ef ==> #[trigger] results@[i] == before[i] && before[i]
                        == mid0[i]);
                assert(spec_sort_key(mid0[ef - 1].1) <= spec_sort_key(item.1));
                assert(spec_sort_key(item.1) >= spec_sort_key(results@[ef - 1].1));
            }
        }
    } else {
        proof {
            assert forall|i: int| 0 <= i < mid0.len() implies in_seq(
                #[trigger] mid0[i],
                results@,
            ) by {
                if i < p {
                    assert(results@[i] == mid0[i]);
                } else {
                    assert(results@[i + 1] == mid0[i]);
                }
            }
            assert(results@[p as int] == item);
            assert(in_seq(item, results@));
        }
    }
}

/// Membership of a hit in a list.
pub open spec fn in_seq(x: (u64, u32), s: Seq<(u64, u32)>) -> bool {
    exists|i: int| 0 <= i < s.len() && #[trigger] s[i] == x
}

impl HnswIndex {
    /// Inserts a vector. The node gets a random level; the graph is
    /// descended to find close nodes, and edges are added on each shared
    /// layer while both ends have room. Rejects a vector of the wrong
    /// dimension and an identifier already present.
    #[verifier::rlimit(100)]
    #[verifier::spinoff_prover]
    pub fn insert(&mut self, id: u64, vector: Vec<u32>, payload: Payload) -> (r: Result<
        (),
        Error,
    >)
        requires
            old(self).wf(),
            payload.wf(),
        ensures
            final(self).wf(),
            final(self).spec_config() == old(self).spec_config(),
            final(self).spec_dimension() == old(self).spec_dimension(),
            final(self).spec_metric_of() == old(self).spec_metric_of(),
            match r {
                Ok(()) => {
                    &&& vector@.len() == old(self).spec_dimension()
                    &&& !has_id(old(self).view_nodes(), id)
                    &&& final(self).view_nodes().len() == old(self).view_nodes().len() + 1
                    &&& (forall|i: int|
                        0 <= i < old(self).view_nodes().len() ==> (
                        #[trigger] final(self).view_nodes()[i]).id == old(
                            self,
                        ).view_nodes()[i].id && final(self).view_nodes()[i].vector == old(
                            self,
                        ).view_nodes()[i].vector && final(self).view_nodes()[i].payload == old(
                            self,
                        ).view_nodes()[i].payload)
                    &&& final(self).view_nodes().last().id == id
                    &&& final(self).view_nodes().last().vector == vector@
                    &&& final(self).view_nodes().last().payload == payload.view_fields()
                    &&& final(self).spec_entry_point() is Some
                    &&& (old(self).view_nodes().len() == 0 ==> final(self).spec_entry_point()
                        == Some(id)
                        && final(self).spec_max_level() == final(self).view_nodes().last().level)
                    &&& (final(self).view_nodes().last().level > old(self).spec_max_level()
                        ==> final(self).spec_entry_point() == Some(id)
                        && final(self).spec_max_level() == final(self).view_nodes().last().level)
                    &&& (old(self).view_nodes().len() > 0
                        && final(self).view_nodes().last().level <= old(self).spec_max_level()
                        ==> final(self).spec_entry_point() == old(self).spec_entry_point()
                        && final(self).spec_max_level() == old(self).spec_max_level())
                },
                Err(e) => {
                    &&& *final(self) == *old(self)
                    &&& (e is DimensionMismatch <==> vector@.len() != old(self).spec_dimension())
                    &&& (e is DuplicateId ==> has_id(old(self).view_nodes(), id))
                    &&& (e is DimensionMismatch || e is DuplicateId)
                },
            },
    {
        if vector.len() != self.dimension {
            return Err(
                Error::DimensionMismatch { expected: self.dimension, got: vector.len() },
            );
        }
        match self.find(id) {
            Some(_) => {
                proof {
                    assert(has_id(self.view_nodes(), id));
                }
                return Err(Error::DuplicateId(id));
            },
            None => {},
        }
        let level = self.random_level();
        // the node starts with an empty neighbor list on each of its layers
        let mut lists: Vec<Vec<u64>> = Vec::new();
        let mut li: usize = 0;
        while li < level + 1
            invariant
                0 <= li <= level + 1,
                level <= 30,
                lists@.len() == li,
                forall|w: int| 0 <= w < li ==> (#[trigger] lists@[w])@.len() == 0,
            decreases level + 1 - li,
        {
            lists.push(Vec::new());
            li += 1;
        }
        if self.nodes.len() == 0 {
            let node = HnswNode { id, vector, payload, level, neighbors: lists };
            let ghost old_view = self.view_nodes();
            self.nodes.push(node);
            self.entry_point = Some(id);
            self.max_level = level;
            proof {
                assert(self.view_nodes().len() == 1);
                assert(self.view_nodes()[0].id == id);
                assert(self.view_nodes()[0].neighbors.len() == level + 1);
                assert(forall|l: int|
                    0 <= l < level + 1 ==> (#[trigger] self.view_nodes()[0].neighbors[l]).len()
                        == 0);
                assert(has_id(self.view_nodes(), id));
            }
            return Ok(());
        }
        // descend from the top to just above the new node's level
        let ep = match self.entry_point {
            Some(ep) => ep,
            None => {
                proof {
                    assert(false);
                }
                return Ok(());
            },
        };
        let mut cur = ep;
        let mut layer = self.max_level;
        while layer > level
            invariant
                self.wf(),
                vector@.len() == self.spec_dimension(),
                has_id(self.view_nodes(), cur),
            decreases layer,
        {
            cur = self.greedy_search_single(vector.as_slice(), cur, layer);
            layer -= 1;
        }
        // collect candidate neighbors per shared layer, top down
        let top = if level < self.max_level {
            level
        } else {
            self.max_level
        };
        let mut per_layer: Vec<Vec<u64>> = Vec::new();
        let mut eps: Vec<u64> = Vec::new();
        eps.push(cur);
        let mut l2: usize = top;
        let mut done = false;
        while !done
            invariant
                self.wf(),
                vector@.len() == self.spec_dimension(),
                l2 <= top,
                top <= 30,
                per_layer@.len() == top - l2 + (if done {
                    1int
                } else {
                    0int
                }),
                forall|w: int, k: int|
                    0 <= w < per_layer@.len() && 0 <= k < (#[trigger] per_layer@[w])@.len()
                        ==> has_id(self.view_nodes(), #[trigger] per_layer@[w]@[k]),
            decreases (if done {
                0int
            } else {
                l2 + 1
            }),
        {
            let m_l = if l2 == 0 {
                self.config.m_max0
            } else {
                self.config.m
            };
            let efc = if self.config.ef_construction >= 1 {
                self.config.ef_construction
            } else {
                1
            };
            let (cands, _beam) = self.search_layer(vector.as_slice(), &eps, efc, l2);
            // closest first: keep up to the cap
            let mut sel: Vec<u64> = Vec::new();
            let mut new_eps: Vec<u64> = Vec::new();
            let mut ci: usize = 0;
            while ci < cands.len()
                invariant
                    0 <= ci <= cands@.len(),
                    sel@.len() <= ci,
                    self.wf(),
                    forall|k: int|
                        0 <= k < sel@.len() ==> has_id(self.view_nodes(), #[trigger] sel@[k]),
                    forall|k: int|
                        0 <= k < cands@.len() ==> result_entry_ok(#[trigger] cands@[k],
                        self.view_nodes(), self.spec_metric_of(), vector@, l2 as int),
                decreases cands@.len() - ci,
            {
                if sel.len() < m_l {
                    proof {
                        assert(result_entry_ok(cands@[ci as int], self.view_nodes(),
                        self.spec_metric_of(), vector@, l2 as int));
                    }
                    sel.push(cands[ci].0);
                }
                new_eps.push(cands[ci].0);
                ci += 1;
            }
            per_layer.push(sel);
            if new_eps.len() > 0 {
                eps = new_eps;
            }
            if l2 == 0 {
                done = true;
            } else {
                l2 -= 1;
            }
        }
        // create the node, then wire it up
        let ghost old_view = self.view_nodes();
        let node = HnswNode { id, vector, payload, level, neighbors: lists };
        self.nodes.push(node);
        let ni = self.nodes.len() - 1;
        proof {
            assert(forall|i: int|
                0 <= i < old_view.len() ==> #[trigger] self.view_nodes()[i] == old_view[i]);
            assert(self.view_nodes()[ni as int].id == id);
            assert(self.view_nodes()[ni as int].neighbors.len() == level + 1);
            assert(forall|l: int|
                0 <= l < level + 1 ==> (
                #[trigger] self.view_nodes()[ni as int].neighbors[l]).len() == 0);
            assert(graph_wf(self.view_nodes(), self.spec_config().m as int,
            self.spec_config().m_max0 as int)) by {
                let s = self.view_nodes();
                assert forall|i: int, l: int, k: int|
                    0 <= i < s.len() && 0 <= l < s[i].neighbors.len() && 0 <= k
                        < s[i].neighbors[l].len() implies #[trigger] s[i].neighbors[l][k]
                    != s[i].id && exists|j: int|
                    {
                        &&& 0 <= j < s.len()
                        &&& (#[trigger] s[j]).id == s[i].neighbors[l][k]
                        &&& l < s[j].neighbors.len()
                        &&& s[j].neighbors[l].contains(s[i].id)
                    } by {
                    assert(i < old_view.len());
                    let j = choose|j: int|
                        {
                            &&& 0 <= j < old_view.len()
                            &&& (#[trigger] old_view[j]).id == old_view[i].neighbors[l][k]
                            &&& l < old_view[j].neighbors.len()
                            &&& old_view[j].neighbors[l].contains(old_view[i].id)
                        };
                    assert(s[j] == old_view[j]);
                }
            }
            if level > self.spec_max_level() {
            } else {
                let w = choose|w: int|
                    0 <= w < old_view.len() && (#[trigger] old_view[w]).level
                        == self.spec_max_level();
                assert(self.view_nodes()[w].level == self.spec_max_level());
            }
            if self.spec_entry_point() is Some {
                let epv = self.spec_entry_point().unwrap();
                let w = choose|w: int|
                    0 <= w < old_view.len() && (#[trigger] old_view[w]).id == epv;
                assert(self.view_nodes()[w].id == epv);
            }
        }
        if level > self.max_level {
            self.entry_point = Some(id);
            self.max_level = level;
            proof {
                assert(self.view_nodes()[ni as int].level == self.spec_max_level());
                assert(has_id(self.view_nodes(), id));
            }
        }
        // connect on each shared layer; the selected lists were gathered
        // top down, so list `w` belongs to layer `top - w`
        let mut w: usize = 0;
        let ghost view_after_push = self.view_nodes();
        let ghost ep_snap = self.spec_entry_point();
        let ghost ml_snap = self.spec_max_level();
        proof {
            assert forall|a: int, k: int|
                0 <= a < per_layer@.len() && 0 <= k < (#[trigger] per_layer@[a])@.len() implies
                has_id(view_after_push, #[trigger] per_layer@[a]@[k]) by {
                assert(has_id(old_view, per_layer@[a]@[k]));
                let j = choose|j: int|
                    0 <= j < old_view.len() && (#[trigger] old_view[j]).id == per_layer@[a]@[k];
                assert(view_after_push[j].id == per_layer@[a]@[k]);
            }
        }
        while w < per_layer.len()
            invariant
                0 <= w <= per_layer@.len(),
                self.wf(),
                ni < self.view_nodes().len(),
                same_data(view_after_push, self.view_nodes()),
                self.spec_config() == old(self).spec_config(),
                self.spec_dimension() == old(self).spec_dimension(),
                self.spec_metric_of() == old(self).spec_metric_of(),
                self.spec_entry_point() == ep_snap,
                self.spec_max_level() == ml_snap,
                per_layer@.len() <= 31,
                forall|a: int, k: int|
                    0 <= a < per_layer@.len() && 0 <= k < (#[trigger] per_layer@[a])@.len()
                        ==> has_id(view_after_push, #[trigger] per_layer@[a]@[k]),
            decreases per_layer@.len() - w,
        {
            let layer_w = if w <= per_layer.len() - 1 {
                // top - w, guarded against underflow
                if per_layer.len() - 1 - w <= 30 {
                    per_layer.len() - 1 - w
                } else {
                    0
                }
            } else {
                0
            };
            let mut k: usize = 0;
            while k < per_layer[w].len()
                invariant
                    0 <= k <= per_layer@[w as int]@.len(),
                    0 <= w < per_layer@.len(),
                    self.wf(),
                    ni < self.view_nodes().len(),
                    same_data(view_after_push, self.view_nodes()),
                    self.spec_config() == old(self).spec_config(),
                    self.spec_dimension() == old(self).spec_dimension(),
                    self.spec_metric_of() == old(self).spec_metric_of(),
                    self.spec_entry_point() == ep_snap,
                    self.spec_max_level() == ml_snap,
                    forall|a: int, kk: int|
                        0 <= a < per_layer@.len() && 0 <= kk < (#[trigger] per_layer@[a])@.len()
                            ==> has_id(view_after_push, #[trigger] per_layer@[a]@[kk]),
                decreases per_layer@[w as int]@.len() - k,
            {
                let nb = per_layer[w][k];
                proof {
                    assert(has_id(view_after_push, nb));
                    let j = choose|j: int|
                        0 <= j < view_after_push.len() && (#[trigger] view_after_push[j]).id
                            == nb;
                    assert(self.view_nodes()[j].id == nb);
                    assert(has_id(self.view_nodes(), nb));
                }
                match self.find(nb) {
                    Some(bi) => {
                        if bi != ni {
                            let cap = if layer_w == 0 {
                                self.config.m_max0
                            } else {
                                self.config.m
                            };
                            let full = layer_w < self.nodes[bi].neighbors.len()
                                && self.nodes[bi].neighbors[layer_w].len() >= cap;
                            if full && self.nodes[bi].vector.len() == self.nodes[
                                ni
                            ].vector.len() {
                                let d = self.metric.compute(
                                    self.nodes[bi].vector.as_slice(),
                                    self.nodes[ni].vector.as_slice(),
                                );
                                let dk = crate::sort_key(d);
                                self.make_room(bi, layer_w, dk);
                            }
                            proof {
                                let j = choose|j: int|
                                    0 <= j < view_after_push.len() && (
                                    #[trigger] view_after_push[j]).id == nb;
                            }
                            match self.find(nb) {
                                Some(bi2) => {
                                    if bi2 != ni {
                                        self.add_edge(ni, bi2, layer_w);
                                    }
                                },
                                None => {},
                            }
                        }
                    },
                    None => {},
                }
                k += 1;
            }
            w += 1;
        }
        proof {
            assert(same_data(view_after_push, self.view_nodes()));
            assert(self.view_nodes().len() == old_view.len() + 1);
            assert(forall|i: int|
                0 <= i < old_view.len() ==> (#[trigger] self.view_nodes()[i]).id
                    == old_view[i].id && self.view_nodes()[i].vector == old_view[i].vector
                    && self.view_nodes()[i].payload == old_view[i].payload);
            assert(self.view_nodes().last().id == id);
            assert(self.view_nodes().last().level == level);
        }
        Ok(())
    }
}

/// A copy of a neighbor list without one identifier.
fn remove_id_from(list: &Vec<u64>, vid: u64) -> (r: Vec<u64>)
    ensures
        r@.len() <= list@.len(),
        !r@.contains(vid),
        forall|x: u64| x != vid ==> (r@.contains(x) == list@.contains(x)),
        forall|k: int| 0 <= k < r@.len() ==> list@.contains(#[trigger] r@[k]),
{
    let n = list.len();
    let mut out: Vec<u64> = Vec::new();
    let mut i: usize = 0;
    while i < n
        invariant
            0 <= i <= n,
            n == list@.len(),
            out@.len() <= i,
            !out@.contains(vid),
            forall|x: u64|
                x != vid ==> (out@.contains(x) == list@.take(i as int).contains(x)),
            forall|k: int| 0 <= k < out@.len() ==> list@.contains(#[trigger] out@[k]),
        decreases n - i,
    {
        let ghost pre = out@;
        if list[i] != vid {
            out.push(list[i]);
            proof {
                assert(list@.contains(list@[i as int]));
                assert forall|x: u64|
                    x != vid implies (out@.contains(x) == list@.take(i + 1).contains(x)) by {
                    if out@.contains(x) {
                        let w = choose|w: int| 0 <= w < out@.len() && out@[w] == x;
                        if w < pre.len() {
                            assert(pre.contains(x));
                            let v = choose|v: int|
                                0 <= v < i && #[trigger] list@.take(i as int)[v] == x;
                            assert(list@.take(i + 1)[v] == x);
                        } else {
                            assert(x == list@[i as int]);
                            assert(list@.take(i + 1)[i as int] == x);
                        }
                    }
                    if list@.take(i + 1).contains(x) {
                        let v = choose|v: int| 0 <= v < i + 1 && #[trigger] list@.take(i + 1)[v] == x;
                        if v < i {
                            assert(list@.take(i as int)[v] == x);
                            assert(pre.contains(x));
                            let w = choose|w: int| 0 <= w < pre.len() && pre[w] == x;
                            assert(out@[w] == x);
                        } else {
                            assert(out@.last() == x);
                        }
                    }
                }
            }
        } else {
            proof {
                assert forall|x: u64|
                    x != vid implies (out@.contains(x) == list@.take(i + 1).contains(x)) by {
                    if out@.contains(x) {
                        let v = choose|v: int| 0 <= v < i && list@.take(i as int)[v] == x;
                        assert(list@.take(i + 1)[v] == x);
                    }
                    if list@.take(i + 1).contains(x) {
                        let v = choose|v: int| 0 <= v < i + 1 && #[trigger] list@.take(i + 1)[v] == x;
                        if v < i {
                            assert(list@.take(i as int)[v] == x);
                        } else {
                            assert(x == list@[i as int]);
                            assert(false);
                        }
                    }
                }
            }
        }
        i += 1;
    }
    proof {
        assert(list@.take(n as int) =~= list@);
    }
    out
}

impl HnswIndex {
    /// The vector and payload under `id`.
    pub fn get(&self, id: u64) -> (r: Option<(&Vec<u32>, &Payload)>)
        ensures
            match r {
                Some((v, p)) => exists|j: int|
                    0 <= j < self.view_nodes().len() && (#[trigger] self.view_nodes()[j]).id == id
                        && self.view_nodes()[j].vector == v@ && self.view_nodes()[j].payload
                        == p.view_fields(),
                None => !has_id(self.view_nodes(), id),
            },
    {
        match self.find(id) {
            Some(i) => Some((&self.nodes[i].vector, &self.nodes[i].payload)),
            None => None,
        }
    }

    /// Removes everything.
    pub fn clear(&mut self)
        ensures
            final(self).view_nodes() == Seq::<NodeView>::empty(),
            final(self).spec_config() == old(self).spec_config(),
            final(self).spec_dimension() == old(self).spec_dimension(),
            final(self).spec_metric_of() == old(self).spec_metric_of(),
            old(self).wf() ==> final(self).wf(),
    {
        self.nodes.clear();
        self.entry_point = None;
        self.max_level = 0;
        proof {
            assert(self.view_nodes() =~= Seq::<NodeView>::empty());
        }
    }

    /// The `k` nearest stored vectors to `query` among those passing the
    /// filter, sorted ascending by distance order key, found by descending
    /// the layers and running the beam on layer zero. An empty result for a
    /// query of the wrong dimension or an empty graph.
    #[verifier::rlimit(100)]
    #[verifier::spinoff_prover]
    pub fn search(&self, query: &[u32], k: usize, ef: Option<usize>, filter: Option<Filter>) -> (
    r: Vec<crate::brute::SearchResult>)
        requires
            self.wf(),
        ensures
            query@.len() != self.spec_dimension() || self.view_nodes().len() == 0 ==> r@.len()
                == 0,
            r@.len() <= k,
            forall|i: int, j: int|
                0 <= i < j < r@.len() ==> spec_sort_key((#[trigger] r@[i]).distance)
                    <= spec_sort_key((#[trigger] r@[j]).distance),
            forall|i: int, j: int|
                0 <= i < j < r@.len() ==> (#[trigger] r@[i]).id != (#[trigger] r@[j]).id,
            forall|i: int|
                0 <= i < r@.len() ==> exists|m: int|
                    {
                        &&& 0 <= m < self.view_nodes().len()
                        &&& (#[trigger] r@[i]).id == (#[trigger] self.view_nodes()[m]).id
                        &&& r@[i].distance == spec_metric(self.spec_metric_of(), query@,
                        self.view_nodes()[m].vector)
                        &&& (r@[i].payload matches Some(p) && p.view_fields()
                            == self.view_nodes()[m].payload)
                        &&& (filter matches Some(f) ==> filter_matches(f,
                        self.view_nodes()[m].payload))
                    },
            k >= 1 && self.view_nodes().len() > 0 && query@.len() == self.spec_dimension()
                && filter_total(self.view_nodes(), filter) ==> r@.len() >= 1,
    {
        if query.len() != self.dimension || self.nodes.len() == 0 {
            return Vec::new();
        }
        let mut ef_eff = match ef {
            Some(e) => e,
            None => self.config.ef_search,
        };
        if ef_eff < k {
            ef_eff = k;
        }
        if ef_eff < 1 {
            ef_eff = 1;
        }
        let ep = match self.entry_point {
            Some(ep) => ep,
            None => {
                proof {
                    assert(false);
                }
                return Vec::new();
            },
        };
        let mut cur = ep;
        let mut layer = self.max_level;
        while layer > 0
            invariant
                self.wf(),
                query@.len() == self.spec_dimension(),
                has_id(self.view_nodes(), cur),
            decreases layer,
        {
            cur = self.greedy_search_single(query, cur, layer);
            layer -= 1;
        }
        let mut eps: Vec<u64> = Vec::new();
        eps.push(cur);
        proof {
            let j = choose|j: int|
                0 <= j < self.view_nodes().len() && (#[trigger] self.view_nodes()[j]).id == cur;
            assert(self.view_nodes()[j].neighbors.len() == self.view_nodes()[j].level + 1);
            assert(node_with_layer(self.view_nodes(), cur, 0));
            assert(eps@[0] == cur);
        }
        let (cands, _beam) = self.search_layer(query, &eps, ef_eff, 0);
        proof {
            assert(cands@.len() >= 1);
        }
        // keep the closest `k` that pass the filter, in beam order
        let mut out: Vec<crate::brute::SearchResult> = Vec::new();
        let mut ci: usize = 0;
        let ghost s = self.view_nodes();
        while ci < cands.len() && out.len() < k
            invariant
                0 <= ci <= cands@.len(),
                self.wf(),
                s == self.view_nodes(),
                query@.len() == self.spec_dimension(),
                out@.len() <= k,
                k >= 1 && ci > 0 && filter_total(s, filter) ==> out@.len() >= 1,
                forall|i: int, j: int|
                    0 <= i < j < cands@.len() ==> spec_sort_key((#[trigger] cands@[i]).1)
                        <= spec_sort_key((#[trigger] cands@[j]).1),
                forall|i: int, j: int|
                    0 <= i < j < cands@.len() ==> (#[trigger] cands@[i]).0 != (
                    #[trigger] cands@[j]).0,
                forall|i: int|
                    0 <= i < cands@.len() ==> result_entry_ok(#[trigger] cands@[i], s,
                    self.spec_metric_of(), query@, 0),
                forall|i: int, j: int|
                    0 <= i < j < out@.len() ==> spec_sort_key((#[trigger] out@[i]).distance)
                        <= spec_sort_key((#[trigger] out@[j]).distance),
                forall|i: int, j: int|
                    0 <= i < j < out@.len() ==> (#[trigger] out@[i]).id != (
                    #[trigger] out@[j]).id,
                forall|i: int|
                    0 <= i < out@.len() ==> exists|w: int|
                        0 <= w < ci && (#[trigger] out@[i]).id == (#[trigger] cands@[w]).0
                            && out@[i].distance == cands@[w].1,
                forall|i: int|
                    0 <= i < out@.len() ==> exists|m: int|
                        {
                            &&& 0 <= m < s.len()
                            &&& (#[trigger] out@[i]).id == (#[trigger] s[m]).id
                            &&& out@[i].distance == spec_metric(self.spec_metric_of(), query@,
                            s[m].vector)
                            &&& (out@[i].payload matches Some(p) && p.view_fields()
                                == s[m].payload)
                            &&& (filter matches Some(f) ==> filter_matches(f, s[m].payload))
                        },
            decreases cands@.len() - ci,
        {
            let (cid, cd) = (cands[ci].0, cands[ci].1);
            let ni = match self.find(cid) {
                Some(i) => i,
                None => {
                    proof {
                        assert(result_entry_ok(cands@[ci as int], s, self.spec_metric_of(),
                        query@, 0));
                        assert(false);
                    }
                    return out;
                },
            };
            let passes = match &filter {
                Some(f) => f.matches(&self.nodes[ni].payload),
                None => true,
            };
            proof {
                if filter_total(s, filter) {
                    match &filter {
                        Some(f) => {
                            assert(filter_matches(*f, s[ni as int].payload));
                        },
                        None => {},
                    }
                }
            }
            if passes {
                proof {
                    assert(result_entry_ok(cands@[ci as int], s, self.spec_metric_of(), query@,
                    0));
                    let m = choose|m: int|
                        0 <= m < s.len() && (#[trigger] s[m]).id == cid && 0
                            < s[m].neighbors.len() && cd == spec_metric(self.spec_metric_of(),
                        query@, s[m].vector);
                    if m < ni {
                        assert(s[m].id == s[ni as int].id);
                    } else if ni < m {
                        assert(s[ni as int].id == s[m].id);
                    }
                    assert(s[ni as int].id == cid);
                    assert(cd == spec_metric(self.spec_metric_of(), query@, s[ni
                        as int].vector));
                }
                let pay = self.nodes[ni].payload.duplicate();
                let ghost prev = out@;
                out.push(
                    crate::brute::SearchResult { id: cid, distance: cd, payload: Some(pay) },
                );
                proof {
                    assert forall|i: int, j: int|
                        0 <= i < j < out@.len() implies (#[trigger] out@[i]).id != (
                        #[trigger] out@[j]).id by {
                        if j < prev.len() {
                        } else {
                            let w = choose|w: int|
                                0 <= w < ci && (#[trigger] out@[i]).id == (
                                #[trigger] cands@[w]).0 && out@[i].distance == cands@[w].1;
                            assert(cands@[w].0 != cands@[ci as int].0);
                        }
                    }
                    assert forall|i: int, j: int|
                        0 <= i < j < out@.len() implies spec_sort_key(
                        (#[trigger] out@[i]).distance) <= spec_sort_key(
                        (#[trigger] out@[j]).distance) by {
                        if j < prev.len() {
                        } else {
                            let w = choose|w: int|
                                0 <= w < ci && (#[trigger] out@[i]).id == (
                                #[trigger] cands@[w]).0 && out@[i].distance == cands@[w].1;
                            assert(spec_sort_key(cands@[w].1) <= spec_sort_key(
                                cands@[ci as int].1,
                            ));
                        }
                    }
                }
            }
            ci += 1;
        }
        out
    }

    /// Removes the node under `id` and every edge it took part in; the rest
    /// of the graph is left as it stands. Says whether a node was there.
    #[verifier::rlimit(100)]
    #[verifier::spinoff_prover]
    pub fn delete(&mut self, id: u64) -> (r: bool)
        requires
            old(self).wf(),
        ensures
            final(self).wf(),
            final(self).spec_config() == old(self).spec_config(),
            final(self).spec_dimension() == old(self).spec_dimension(),
            final(self).spec_metric_of() == old(self).spec_metric_of(),
            r == has_id(old(self).view_nodes(), id),
            !r ==> *final(self) == *old(self),
            r ==> final(self).view_nodes().len() == old(self).view_nodes().len() - 1,
            r ==> !has_id(final(self).view_nodes(), id),
            r ==> forall|x: u64|
                x != id ==> (has_id(final(self).view_nodes(), x) == has_id(
                    old(self).view_nodes(),
                    x,
                )),
            r ==> forall|i: int|
                0 <= i < final(self).view_nodes().len() ==> exists|j: int|
                    0 <= j < old(self).view_nodes().len() && (#[trigger] final(self).view_nodes()[i]).id
                        == (#[trigger] old(self).view_nodes()[j]).id
                        && final(self).view_nodes()[i].vector == old(self).view_nodes()[j].vector
                        && final(self).view_nodes()[i].payload == old(self).view_nodes()[j].payload,
    {
        let i0 = match self.find(id) {
            Some(i) => i,
            None => {
                return false;
            },
        };
        proof {
            assert(has_id(self.view_nodes(), id));
        }
        let ghost v0 = self.view_nodes();
        // sweep: strip the identifier out of every neighbor list
        let n = self.nodes.len();
        let mut a: usize = 0;
        while a < n
            invariant
                0 <= a <= n,
                n == self.nodes@.len(),
                sweep_ok(v0, self.view_nodes(), id, a as int),
                self.spec_config() == old(self).spec_config(),
                self.spec_dimension() == old(self).spec_dimension(),
                self.spec_metric_of() == old(self).spec_metric_of(),
                self.spec_entry_point() == old(self).spec_entry_point(),
                self.spec_max_level() == old(self).spec_max_level(),
            decreases n - a,
        {
            let ghost vprev = self.view_nodes();
            let mut node = self.nodes.remove(a);
            let layers = node.neighbors.len();
            let mut l: usize = 0;
            let mut new_lists: Vec<Vec<u64>> = Vec::new();
            while l < layers
                invariant
                    0 <= l <= layers,
                    layers == node.neighbors@.len(),
                    new_lists@.len() == l,
                    forall|w: int|
                        0 <= w < l ==> stripped(
                            (#[trigger] new_lists@[w])@,
                            node.neighbors@[w]@,
                            id,
                        ),
                decreases layers - l,
            {
                let filtered = remove_id_from(&node.neighbors[l], id);
                new_lists.push(filtered);
                l += 1;
            }
            let upd = HnswNode {
                id: node.id,
                vector: node.vector,
                payload: node.payload,
                level: node.level,
                neighbors: new_lists,
            };
            let ghost uview = node_view(upd);
            self.nodes.insert(a, upd);
            proof {
                assert(self.view_nodes() =~= vprev.update(a as int, uview));
                assert(forall|i: int|
                    0 <= i < vprev.len() && i != a ==> #[trigger] self.view_nodes()[i]
                        == vprev[i]);
                assert(uview.id == vprev[a as int].id && uview.vector == vprev[a as int].vector
                    && uview.payload == vprev[a as int].payload && uview.level == vprev[a
                    as int].level);
                assert(uview.neighbors.len() == vprev[a as int].neighbors.len());
                assert(vprev[a as int].neighbors == v0[a as int].neighbors);
                assert(forall|l: int|
                    0 <= l < uview.neighbors.len() ==> stripped(
                        #[trigger] uview.neighbors[l],
                        v0[a as int].neighbors[l],
                        id,
                    ));
                assert(sweep_ok(v0, self.view_nodes(), id, a + 1));
            }
            a += 1;
        }
        // remove the node itself
        let ghost v1 = self.view_nodes();
        let _ = self.nodes.remove(i0);
        let ghost v2 = self.view_nodes();
        proof {
            assert(v2 =~= v1.remove(i0 as int));
        }
        // repair the entry point and the highest level
        if self.nodes.len() == 0 {
            self.entry_point = None;
            self.max_level = 0;
        } else {
            let new_ep = self.nodes[0].id;
            self.entry_point = Some(new_ep);
            let mut ml: usize = 0;
            let mut b: usize = 0;
            while b < self.nodes.len()
                invariant
                    0 <= b <= self.nodes@.len(),
                    self.nodes@.len() >= 1,
                    forall|i: int|
                        0 <= i < b ==> (#[trigger] self.view_nodes()[i]).level <= ml,
                    b > 0 ==> exists|i: int|
                        0 <= i < b && (#[trigger] self.view_nodes()[i]).level == ml,
                    b == 0 ==> ml == 0,
                decreases self.nodes@.len() - b,
            {
                if self.nodes[b].level > ml || b == 0 {
                    ml = self.nodes[b].level;
                    proof {
                        assert(self.view_nodes()[b as int].level == ml);
                    }
                }
                b += 1;
            }
            self.max_level = ml;
        }
        proof {
            lemma_delete_wf(v0, v1, v2, id, i0 as int, self.spec_config().m as int,
            self.spec_config().m_max0 as int);
            assert forall|x: u64|
                x != id implies (has_id(v2, x) == has_id(v0, x)) by {
                if has_id(v2, x) {
                    let i = choose|i: int| 0 <= i < v2.len() && (#[trigger] v2[i]).id == x;
                    if i < i0 {
                        assert(v0[i].id == x);
                    } else {
                        assert(v0[i + 1].id == x);
                    }
                }
                if has_id(v0, x) {
                    let i = choose|i: int| 0 <= i < v0.len() && (#[trigger] v0[i]).id == x;
                    assert(i != i0);
                    if i < i0 {
                        assert(v2[i].id == x);
                    } else {
                        assert(v2[i - 1].id == x);
                    }
                }
            }
            assert(!has_id(v2, id)) by {
                if has_id(v2, id) {
                    let i = choose|i: int| 0 <= i < v2.len() && (#[trigger] v2[i]).id == id;
                    if i < i0 {
                        assert(v0[i].id == id && v0[i0 as int].id == id);
                        assert(false);
                    } else {
                        assert(v0[i + 1].id == id && v0[i0 as int].id == id);
                        assert(false);
                    }
                }
            }
            assert forall|i: int|
                0 <= i < v2.len() implies exists|j: int|
                0 <= j < v0.len() && (#[trigger] v2[i]).id == (#[trigger] v0[j]).id && v2[i].vector
                    == v0[j].vector && v2[i].payload == v0[j].payload by {
                if i < i0 {
                    assert(v2[i].id == v0[i].id && v2[i].vector == v0[i].vector && v2[i].payload
                        == v0[i].payload);
                } else {
                    assert(v2[i].id == v0[i + 1].id && v2[i].vector == v0[i + 1].vector
                        && v2[i].payload == v0[i + 1].payload);
                }
            }
            if self.view_nodes().len() > 0 {
                assert(self.view_nodes()[0].id == self.spec_entry_point().unwrap());
                assert(has_id(self.view_nodes(), self.spec_entry_point().unwrap()));
            }
        }
        true
    }
}

/// One list equals another with every occurrence of `vid` removed.
pub open spec fn stripped(new: Seq<u64>, old_l: Seq<u64>, vid: u64) -> bool {
    &&& new.len() <= old_l.len()
    &&& !new.contains(vid)
    &&& (forall|x: u64| x != vid ==> (new.contains(x) == old_l.contains(x)))
    &&& (forall|k: int| 0 <= k < new.len() ==> old_l.contains(#[trigger] new[k]))
}

/// The sweep's progress: the first `a` nodes have their lists stripped of
/// `vid`, the rest stand as before; data and levels are untouched.
pub open spec fn sweep_ok(v0: Seq<NodeView>, v1: Seq<NodeView>, vid: u64, a: int) -> bool {
    &&& v1.len() == v0.len()
    &&& (forall|i: int|
        0 <= i < v0.len() ==> (#[trigger] v1[i]).id == v0[i].id && v1[i].vector == v0[i].vector
            && v1[i].payload == v0[i].payload && v1[i].level == v0[i].level
            && v1[i].neighbors.len() == v0[i].neighbors.len())
    &&& (forall|i: int| a <= i < v0.len() ==> (#[trigger] v1[i]).neighbors == v0[i].neighbors)
    &&& (forall|i: int, l: int|
        0 <= i < a && 0 <= l < (#[trigger] v1[i]).neighbors.len() ==> stripped(
            #[trigger] v1[i].neighbors[l],
            v0[i].neighbors[l],
            vid,
        ))
}

/// After the sweep and the removal of the node, the graph invariant holds
/// again.
#[verifier::rlimit(100)]
proof fn lemma_delete_wf(
    v0: Seq<NodeView>,
    v1: Seq<NodeView>,
    v2: Seq<NodeView>,
    vid: u64,
    i0: int,
    m: int,
    m_max0: int,
)
    requires
        graph_wf(v0, m, m_max0),
        sweep_ok(v0, v1, vid, v0.len() as int),
        0 <= i0 < v1.len(),
        v1[i0].id == vid,
        v2 == v1.remove(i0),
    ensures
        graph_wf(v2, m, m_max0),
{
    assert forall|i: int, l: int, k: int|
        0 <= i < v2.len() && 0 <= l < v2[i].neighbors.len() && 0 <= k
            < v2[i].neighbors[l].len() implies #[trigger] v2[i].neighbors[l][k] != v2[i].id
        && exists|j: int|
        {
            &&& 0 <= j < v2.len()
            &&& (#[trigger] v2[j]).id == v2[i].neighbors[l][k]
            &&& l < v2[j].neighbors.len()
            &&& v2[j].neighbors[l].contains(v2[i].id)
        } by {
        let iv1 = if i < i0 {
            i
        } else {
            i + 1
        };
        assert(v2[i] == v1[iv1]);
        let x = v2[i].neighbors[l][k];
        assert(stripped(v1[iv1].neighbors[l], v0[iv1].neighbors[l], vid));
        assert(v0[iv1].neighbors[l].contains(x));
        let kk = choose|kk: int|
            0 <= kk < v0[iv1].neighbors[l].len() && v0[iv1].neighbors[l][kk] == x;
        assert(v0[iv1].neighbors[l][kk] != v0[iv1].id);
        assert(x != vid);
        let j = choose|j: int|
            {
                &&& 0 <= j < v0.len()
                &&& (#[trigger] v0[j]).id == x
                &&& l < v0[j].neighbors.len()
                &&& v0[j].neighbors[l].contains(v0[iv1].id)
            };
        assert(j != i0) by {
            if j == i0 {
                assert(v0[i0].id == v1[i0].id);
                assert(v0[i0].id == vid);
            }
        }
        let jv2 = if j < i0 {
            j
        } else {
            j - 1
        };
        assert(v2[jv2] == v1[j]);
        assert(v1[j].id == x);
        assert(stripped(v1[j].neighbors[l], v0[j].neighbors[l], vid));
        assert(v1[j].neighbors[l].contains(v0[iv1].id)) by {
            assert(v0[iv1].id == v2[i].id);
            assert(v2[i].id != vid) by {
                if v2[i].id == vid {
                    if iv1 < i0 {
                        assert(v0[iv1].id == vid && v0[i0].id == vid);
                        assert(false);
                    } else {
                        assert(v0[iv1].id == vid && v0[i0].id == vid);
                        assert(false);
                    }
                }
            }
        }
    }
    assert forall|i: int|
        0 <= i < v2.len() implies (#[trigger] v2[i]).neighbors[0].len() <= m_max0 by {
        let iv1 = if i < i0 {
            i
        } else {
            i + 1
        };
        assert(v2[i] == v1[iv1]);
        assert(stripped(v1[iv1].neighbors[0], v0[iv1].neighbors[0], vid));
    }
    assert forall|i: int, l: int|
        0 <= i < v2.len() && 1 <= l < (#[trigger] v2[i]).neighbors.len() implies (
    #[trigger] v2[i].neighbors[l]).len() <= m by {
        let iv1 = if i < i0 {
            i
        } else {
            i + 1
        };
        assert(v2[i] == v1[iv1]);
        assert(stripped(v1[iv1].neighbors[l], v0[iv1].neighbors[l], vid));
    }
    assert forall|i: int, j: int|
        0 <= i < j < v2.len() implies (#[trigger] v2[i]).id != (#[trigger] v2[j]).id by {
        let iv1 = if i < i0 {
            i
        } else {
            i + 1
        };
        let jv1 = if j < i0 {
            j
        } else {
            j + 1
        };
        assert(v2[i] == v1[iv1] && v2[j] == v1[jv1]);
        assert(v0[iv1].id != v0[jv1].id);
    }
}

impl HnswIndex {
    /// Like `search`, but the beam on layer zero is twice as wide and the
    /// hits are intersected with a bitmap of admissible identifiers before
    /// the cut to `k`. The traversal itself is unfiltered so navigation
    /// stays connected.
    #[verifier::rlimit(100)]
    #[verifier::spinoff_prover]
    pub fn search_with_bitmap(
        &self,
        query: &[u32],
        k: usize,
        ef: Option<usize>,
        valid_ids: &roaring::RoaringBitmap,
    ) -> (r: Vec<crate::brute::SearchResult>)
        requires
            self.wf(),
        ensures
            r@.len() <= k,
            forall|i: int, j: int|
                0 <= i < j < r@.len() ==> spec_sort_key((#[trigger] r@[i]).distance)
                    <= spec_sort_key((#[trigger] r@[j]).distance),
            forall|i: int, j: int|
                0 <= i < j < r@.len() ==> (#[trigger] r@[i]).id != (#[trigger] r@[j]).id,
            forall|i: int|
                0 <= i < r@.len() ==> exists|m: int|
                    {
                        &&& 0 <= m < self.view_nodes().len()
                        &&& (#[trigger] r@[i]).id == (#[trigger] self.view_nodes()[m]).id
                        &&& r@[i].distance == spec_metric(self.spec_metric_of(), query@,
                        self.view_nodes()[m].vector)
                        &&& (r@[i].payload matches Some(p) && p.view_fields()
                            == self.view_nodes()[m].payload)
                        &&& crate::bitmap::bm_ids(*valid_ids).contains(r@[i].id as u32)
                    },
            k >= 1 && self.view_nodes().len() > 0 && query@.len() == self.spec_dimension() && (
            forall|j: int|
                0 <= j < self.view_nodes().len() ==> crate::bitmap::bm_ids(*valid_ids).contains(
                    (#[trigger] self.view_nodes()[j]).id as u32,
                )) ==> r@.len() >= 1,
    {
        let ghost covered = forall|j: int|
            0 <= j < self.view_nodes().len() ==> crate::bitmap::bm_ids(*valid_ids).contains(
                (#[trigger] self.view_nodes()[j]).id as u32,
            );
        if query.len() != self.dimension || self.nodes.len() == 0 {
            return Vec::new();
        }
        if crate::bitmap::bm_is_empty(valid_ids) {
            proof {
                if covered {
                    assert(crate::bitmap::bm_ids(*valid_ids).contains(
                        self.view_nodes()[0].id as u32,
                    ));
                    assert(false);
                }
            }
            return Vec::new();
        }
        let mut ef_eff = match ef {
            Some(e) => e,
            None => self.config.ef_search,
        };
        if ef_eff < k {
            ef_eff = k;
        }
        if ef_eff < 1 {
            ef_eff = 1;
        }
        // widen the beam to make up for filter selectivity
        if ef_eff <= usize::MAX / 2 {
            ef_eff = 2 * ef_eff;
        }
        let ep = match self.entry_point {
            Some(ep) => ep,
            None => {
                proof {
                    assert(false);
                }
                return Vec::new();
            },
        };
        let mut cur = ep;
        let mut layer = self.max_level;
        while layer > 0
            invariant
                self.wf(),
                query@.len() == self.spec_dimension(),
                has_id(self.view_nodes(), cur),
            decreases layer,
        {
            cur = self.greedy_search_single(query, cur, layer);
            layer -= 1;
        }
        let mut eps: Vec<u64> = Vec::new();
        eps.push(cur);
        proof {
            let j = choose|j: int|
                0 <= j < self.view_nodes().len() && (#[trigger] self.view_nodes()[j]).id == cur;
            assert(self.view_nodes()[j].neighbors.len() == self.view_nodes()[j].level + 1);
            assert(node_with_layer(self.view_nodes(), cur, 0));
            assert(eps@[0] == cur);
        }
        let (cands, _beam) = self.search_layer(query, &eps, ef_eff, 0);
        proof {
            assert(cands@.len() >= 1);
        }
        let mut out: Vec<crate::brute::SearchResult> = Vec::new();
        let mut ci: usize = 0;
        let ghost s = self.view_nodes();
        while ci < cands.len() && out.len() < k
            invariant
                0 <= ci <= cands@.len(),
                self.wf(),
                s == self.view_nodes(),
                query@.len() == self.spec_dimension(),
                out@.len() <= k,
                covered && k >= 1 && ci > 0 ==> out@.len() >= 1,
                covered == (forall|j: int|
                    0 <= j < s.len() ==> crate::bitmap::bm_ids(*valid_ids).contains(
                        (#[trigger] s[j]).id as u32,
                    )),
                forall|i: int, j: int|
                    0 <= i < j < cands@.len() ==> spec_sort_key((#[trigger] cands@[i]).1)
                        <= spec_sort_key((#[trigger] cands@[j]).1),
                forall|i: int, j: int|
                    0 <= i < j < cands@.len() ==> (#[trigger] cands@[i]).0 != (
                    #[trigger] cands@[j]).0,
                forall|i: int|
                    0 <= i < cands@.len() ==> result_entry_ok(#[trigger] cands@[i], s,
                    self.spec_metric_of(), query@, 0),
                forall|i: int, j: int|
                    0 <= i < j < out@.len() ==> spec_sort_key((#[trigger] out@[i]).distance)
                        <= spec_sort_key((#[trigger] out@[j]).distance),
                forall|i: int, j: int|
                    0 <= i < j < out@.len() ==> (#[trigger] out@[i]).id != (
                    #[trigger] out@[j]).id,
                forall|i: int|
                    0 <= i < out@.len() ==> exists|w: int|
                        0 <= w < ci && (#[trigger] out@[i]).id == (#[trigger] cands@[w]).0
                            && out@[i].distance == cands@[w].1,
                forall|i: int|
                    0 <= i < out@.len() ==> exists|m: int|
                        {
                            &&& 0 <= m < s.len()
                            &&& (#[trigger] out@[i]).id == (#[trigger] s[m]).id
                            &&& out@[i].distance == spec_metric(self.spec_metric_of(), query@,
                            s[m].vector)
                            &&& (out@[i].payload matches Some(p) && p.view_fields()
                                == s[m].payload)
                            &&& crate::bitmap::bm_ids(*valid_ids).contains(out@[i].id as u32)
                        },
            decreases cands@.len() - ci,
        {
            let (cid, cd) = (cands[ci].0, cands[ci].1);
            let ni = match self.find(cid) {
                Some(i) => i,
                None => {
                    proof {
                        assert(result_entry_ok(cands@[ci as int], s, self.spec_metric_of(),
                        query@, 0));
                        assert(false);
                    }
                    return out;
                },
            };
            let passes = crate::bitmap::bm_contains(valid_ids, cid as u32);
            proof {
                if covered {
                    assert(result_entry_ok(cands@[ci as int], s, self.spec_metric_of(), query@,
                    0));
                    let m = choose|m: int|
                        0 <= m < s.len() && (#[trigger] s[m]).id == cid && 0
                            < s[m].neighbors.len() && cd == spec_metric(self.spec_metric_of(),
                        query@, s[m].vector);
                    assert(crate::bitmap::bm_ids(*valid_ids).contains(s[m].id as u32));
                    assert(passes);
                }
            }
            if passes {
                proof {
                    assert(result_entry_ok(cands@[ci as int], s, self.spec_metric_of(), query@,
                    0));
                    let m = choose|m: int|
                        0 <= m < s.len() && (#[trigger] s[m]).id == cid && 0
                            < s[m].neighbors.len() && cd == spec_metric(self.spec_metric_of(),
                        query@, s[m].vector);
                    if m < ni {
                        assert(s[m].id == s[ni as int].id);
                    } else if ni < m {
                        assert(s[ni as int].id == s[m].id);
                    }
                    assert(s[ni as int].id == cid);
                    assert(cd == spec_metric(self.spec_metric_of(), query@, s[ni
                        as int].vector));
                }
                let pay = self.nodes[ni].payload.duplicate();
                let ghost prev = out@;
                out.push(
                    crate::brute::SearchResult { id: cid, distance: cd, payload: Some(pay) },
                );
                proof {
                    assert forall|i: int, j: int|
                        0 <= i < j < out@.len() implies (#[trigger] out@[i]).id != (
                        #[trigger] out@[j]).id by {
                        if j < prev.len() {
                        } else {
                            let w = choose|w: int|
                                0 <= w < ci && (#[trigger] out@[i]).id == (
                                #[trigger] cands@[w]).0 && out@[i].distance == cands@[w].1;
                            assert(cands@[w].0 != cands@[ci as int].0);
                        }
                    }
                    assert forall|i: int, j: int|
                        0 <= i < j < out@.len() implies spec_sort_key(
                        (#[trigger] out@[i]).distance) <= spec_sort_key(
                        (#[trigger] out@[j]).distance) by {
                        if j < prev.len() {
                        } else {
                            let w = choose|w: int|
                                0 <= w < ci && (#[trigger] out@[i]).id == (
                                #[trigger] cands@[w]).0 && out@[i].distance == cands@[w].1;
                            assert(spec_sort_key(cands@[w].1) <= spec_sort_key(
                                cands@[ci as int].1,
                            ));
                        }
                    }
                }
            }
            ci += 1;
        }
        out
    }
}

impl HnswIndex {
    /// Disconnects two nodes on a layer, both ways: every occurrence of
    /// each in the other's list goes.
    #[verifier::rlimit(100)]
    #[verifier::spinoff_prover]
    fn remove_edge(&mut self, ai: usize, bi: usize, layer: usize)
        requires
            old(self).wf(),
            ai < old(self).view_nodes().len(),
            bi < old(self).view_nodes().len(),
            ai != bi,
        ensures
            final(self).wf(),
            same_data(old(self).view_nodes(), final(self).view_nodes()),
            final(self).spec_config() == old(self).spec_config(),
            final(self).spec_dimension() == old(self).spec_dimension(),
            final(self).spec_metric_of() == old(self).spec_metric_of(),
            final(self).spec_entry_point() == old(self).spec_entry_point(),
            final(self).spec_max_level() == old(self).spec_max_level(),
    {
        if layer >= self.nodes[ai].neighbors.len() || layer >= self.nodes[bi].neighbors.len() {
            return;
        }
        let a_id = self.nodes[ai].id;
        let b_id = self.nodes[bi].id;
        proof {
            if ai < bi {
                assert(self.view_nodes()[ai as int].id != self.view_nodes()[bi as int].id);
            } else {
                assert(self.view_nodes()[bi as int].id != self.view_nodes()[ai as int].id);
            }
        }
        let ghost old_view = self.view_nodes();
        let mut na = self.nodes.remove(ai);
        let la = remove_id_from(&na.neighbors[layer], b_id);
        let _ = na.neighbors.remove(layer);
        na.neighbors.insert(layer, la);
        self.nodes.insert(ai, na);
        let ghost mid_view = self.view_nodes();
        proof {
            assert(forall|i: int|
                0 <= i < old_view.len() && i != ai ==> #[trigger] mid_view[i] == old_view[i]);
            assert(mid_view[ai as int].neighbors.len() == old_view[ai as int].neighbors.len());
            assert(stripped(
                mid_view[ai as int].neighbors[layer as int],
                old_view[ai as int].neighbors[layer as int],
                b_id,
            ));
            assert(forall|l: int|
                0 <= l < old_view[ai as int].neighbors.len() && l != layer
                    ==> #[trigger] mid_view[ai as int].neighbors[l] == old_view[ai
                    as int].neighbors[l]);
        }
        let mut nb = self.nodes.remove(bi);
        let lb = remove_id_from(&nb.neighbors[layer], a_id);
        let _ = nb.neighbors.remove(layer);
        nb.neighbors.insert(layer, lb);
        self.nodes.insert(bi, nb);
        let ghost new_view = self.view_nodes();
        proof {
            assert(forall|i: int|
                0 <= i < old_view.len() && i != bi ==> #[trigger] new_view[i] == mid_view[i]);
            assert(new_view[bi as int].neighbors.len() == mid_view[bi as int].neighbors.len());
            assert(stripped(
                new_view[bi as int].neighbors[layer as int],
                mid_view[bi as int].neighbors[layer as int],
                a_id,
            ));
            assert(forall|l: int|
                0 <= l < mid_view[bi as int].neighbors.len() && l != layer
                    ==> #[trigger] new_view[bi as int].neighbors[l] == mid_view[bi
                    as int].neighbors[l]);
            assert(same_data(old_view, new_view));
            let s = new_view;
            let m = self.spec_config().m as int;
            let m0 = self.spec_config().m_max0 as int;
            assert(graph_wf(s, m, m0)) by {
                assert forall|i: int, l: int, k: int|
                    0 <= i < s.len() && 0 <= l < s[i].neighbors.len() && 0 <= k
                        < s[i].neighbors[l].len() implies #[trigger] s[i].neighbors[l][k]
                    != s[i].id && exists|j: int|
                    {
                        &&& 0 <= j < s.len()
                        &&& (#[trigger] s[j]).id == s[i].neighbors[l][k]
                        &&& l < s[j].neighbors.len()
                        &&& s[j].neighbors[l].contains(s[i].id)
                    } by {
                    let x = s[i].neighbors[l][k];
                    // the edge already stood before, possibly at another slot
                    assert(old_view[i].neighbors[l].contains(x)) by {
                        if i == ai && l == layer {
                            assert(stripped(s[i].neighbors[l], old_view[i].neighbors[l], b_id));
                        } else if i == bi && l == layer {
                            assert(stripped(s[i].neighbors[l], mid_view[i].neighbors[l], a_id));
                            assert(mid_view[i].neighbors[l] == old_view[i].neighbors[l]);
                        } else {
                            assert(s[i].neighbors[l] == old_view[i].neighbors[l]);
                        }
                    }
                    let kk = choose|kk: int|
                        0 <= kk < old_view[i].neighbors[l].len() && old_view[i].neighbors[l][kk]
                            == x;
                    assert(old_view[i].neighbors[l][kk] != old_view[i].id);
                    let j = choose|j: int|
                        {
                            &&& 0 <= j < old_view.len()
                            &&& (#[trigger] old_view[j]).id == x
                            &&& l < old_view[j].neighbors.len()
                            &&& old_view[j].neighbors[l].contains(old_view[i].id)
                        };
                    assert(s[j].id == x);
                    // x survived the strip, so the removed partner is not x
                    assert(s[j].neighbors[l].contains(s[i].id)) by {
                        if i == ai && l == layer {
                            assert(x != b_id) by {
                                assert(!s[i].neighbors[l].contains(b_id));
                                assert(s[i].neighbors[l][k] == x);
                            }
                            assert(j != bi);
                            if j == ai {
                                assert(old_view[j].id == old_view[ai as int].id);
                                assert(x == s[i].id);
                                assert(false);
                            }
                            assert(s[j].neighbors[l] == old_view[j].neighbors[l]);
                        } else if i == bi && l == layer {
                            assert(x != a_id) by {
                                assert(!s[i].neighbors[l].contains(a_id));
                                assert(s[i].neighbors[l][k] == x);
                            }
                            assert(j != ai);
                            if j == bi {
                                assert(x == s[i].id);
                                assert(false);
                            }
                            assert(s[j].neighbors[l] == old_view[j].neighbors[l]);
                        } else {
                            if j == ai && l == layer {
                                assert(stripped(
                                    s[j].neighbors[l],
                                    old_view[j].neighbors[l],
                                    b_id,
                                ));
                                assert(s[i].id != b_id) by {
                                    if i < bi {
                                        assert(old_view[i].id != old_view[bi as int].id);
                                    } else if bi < i {
                                        assert(old_view[bi as int].id != old_view[i].id);
                                    }
                                }
                            } else if j == bi && l == layer {
                                assert(stripped(
                                    s[j].neighbors[l],
                                    old_view[j].neighbors[l],
                                    a_id,
                                ));
                                assert(s[i].id != a_id) by {
                                    if i < ai {
                                        assert(old_view[i].id != old_view[ai as int].id);
                                    } else if ai < i {
                                        assert(old_view[ai as int].id != old_view[i].id);
                                    }
                                }
                            } else {
                                assert(s[j].neighbors[l] == old_view[j].neighbors[l]);
                            }
                        }
                    }
                }
                assert forall|i: int|
                    0 <= i < s.len() implies (#[trigger] s[i]).neighbors[0].len() <= m0 by {
                    if (i == ai || i == bi) && layer == 0 {
                    } else {
                        assert(s[i].neighbors[0] == old_view[i].neighbors[0]);
                    }
                }
                assert forall|i: int, l: int|
                    0 <= i < s.len() && 1 <= l < (#[trigger] s[i]).neighbors.len() implies (
                #[trigger] s[i].neighbors[l]).len() <= m by {
                    if (i == ai || i == bi) && l == layer {
                    } else {
                        assert(s[i].neighbors[l] == old_view[i].neighbors[l]);
                    }
                }
            }
            if self.spec_entry_point() is Some {
                let ep = self.spec_entry_point().unwrap();
                let w = choose|w: int|
                    0 <= w < old_view.len() && (#[trigger] old_view[w]).id == ep;
                assert(new_view[w].id == ep);
            }
            if new_view.len() > 0 {
                let w = choose|w: int|
                    0 <= w < old_view.len() && (#[trigger] old_view[w]).level
                        == self.spec_max_level();
                assert(new_view[w].level == self.spec_max_level());
            }
        }
    }

    /// Makes room on a full neighbor: when the new node is closer than the
    /// neighbor's farthest edge on the layer, that edge goes, both ways.
    /// Dropping one edge on both ends, rather than re-selecting the
    /// neighbor's whole set one-sidedly, is what keeps the layer's edges
    /// mirrored after the trim.
    #[verifier::rlimit(100)]
    #[verifier::spinoff_prover]
    fn make_room(&mut self, bi: usize, layer: usize, new_dist_key: u32)
        requires
            old(self).wf(),
            bi < old(self).view_nodes().len(),
        ensures
            final(self).wf(),
            same_data(old(self).view_nodes(), final(self).view_nodes()),
            final(self).spec_config() == old(self).spec_config(),
            final(self).spec_dimension() == old(self).spec_dimension(),
            final(self).spec_metric_of() == old(self).spec_metric_of(),
            final(self).spec_entry_point() == old(self).spec_entry_point(),
            final(self).spec_max_level() == old(self).spec_max_level(),
    {
        if layer >= self.nodes[bi].neighbors.len() {
            return;
        }
        let deg = self.nodes[bi].neighbors[layer].len();
        if deg == 0 {
            return;
        }
        // find the farthest current neighbor of `bi` on this layer
        let mut far_id = self.nodes[bi].neighbors[layer][0];
        let mut far_key: u32 = 0;
        let mut have = false;
        let mut k: usize = 0;
        while k < deg
            invariant
                0 <= k <= deg,
                bi < self.nodes@.len(),
                layer < self.nodes@[bi as int].neighbors@.len(),
                deg == self.view_nodes()[bi as int].neighbors[layer as int].len(),
                self.wf(),
                have ==> has_id(self.view_nodes(), far_id),
            decreases deg - k,
        {
            let y = self.nodes[bi].neighbors[layer][k];
            proof {
                assert(self.view_nodes()[bi as int].neighbors[layer as int][k as int] == y);
                assert(exists|j: int|
                    0 <= j < self.view_nodes().len() && (#[trigger] self.view_nodes()[j]).id == y
                        && (layer as int) < self.view_nodes()[j].neighbors.len()
                        && self.view_nodes()[j].neighbors[layer as int].contains(
                        self.view_nodes()[bi as int].id,
                    ));
                assert(has_id(self.view_nodes(), y));
            }
            match self.find(y) {
                Some(yi) => {
                    if self.nodes[bi].vector.len() == self.nodes[yi].vector.len() {
                        let d = self.metric.compute(
                            self.nodes[bi].vector.as_slice(),
                            self.nodes[yi].vector.as_slice(),
                        );
                        let dk = crate::sort_key(d);
                        if !have || dk > far_key {
                            far_id = y;
                            far_key = dk;
                            have = true;
                        }
                    }
                },
                None => {},
            }
            k += 1;
        }
        if have && new_dist_key < far_key {
            match self.find(far_id) {
                Some(fi) => {
                    if fi != bi {
                        self.remove_edge(bi, fi, layer);
                    }
                },
                None => {},
            }
        }
    }
}

} // verus!
