//! The in-memory dual-zone memory graph and its primitive mutations.
//!
//! Concepts, the two edge zones and working memory are association lists with
//! unique keys.  The well-formedness predicate [`MemoryGraph::wf`] carries the
//! shared graph invariants: every edge endpoint exists, no edge key is in both
//! zones at once, and every weight is a valid fraction.

use vstd::prelude::*;
use crate::types::{Concept, ConceptId, MemoryConfig, SynapticEdge, SynapticWeight, MemoryError,
    accessed_concept, activated_edge, lemma_strengthen_bounds, INITIAL_WEIGHT};

verus! {

/// Two concepts are equal as values: same identity, content, metadata and
/// access bookkeeping.  (Spec-level `==` is not used on `Concept` because its
/// `String` fields are compared through their views.)
pub open spec fn concept_eq(a: Concept, b: Concept) -> bool {
    &&& a.id == b.id
    &&& a.content@ == b.content@
    &&& a.metadata.deep_view() == b.metadata.deep_view()
    &&& a.created_at == b.created_at
    &&& a.last_accessed == b.last_accessed
    &&& a.access_count == b.access_count
}

pub open spec fn concept_ids_unique(s: Seq<Concept>) -> bool {
    forall|i: int, j: int| 0 <= i < j < s.len() ==> s[i].id != s[j].id
}

pub open spec fn has_concept_id(s: Seq<Concept>, id: ConceptId) -> bool {
    exists|i: int| 0 <= i < s.len() && s[i].id == id
}

pub open spec fn concept_index_of(s: Seq<Concept>, id: ConceptId) -> int {
    choose|i: int| 0 <= i < s.len() && s[i].id == id
}

pub open spec fn concept_lookup(s: Seq<Concept>, id: ConceptId) -> Concept {
    s[concept_index_of(s, id)]
}

/// `b` agrees with `a` on every concept other than `id`.
pub open spec fn concepts_same_except(s: Seq<Concept>, t: Seq<Concept>, id: ConceptId) -> bool {
    forall|x: ConceptId|
        x != id ==> #[trigger] has_concept_id(t, x) == has_concept_id(s, x) && (has_concept_id(
            s,
            x,
        ) ==> concept_eq(concept_lookup(t, x), concept_lookup(s, x)))
}

pub open spec fn edge_keys_unique(s: Seq<SynapticEdge>) -> bool {
    forall|i: int, j: int|
        0 <= i < j < s.len() ==> !(s[i].from == s[j].from && s[i].to == s[j].to)
}

pub open spec fn has_edge_key(s: Seq<SynapticEdge>, from: ConceptId, to: ConceptId) -> bool {
    exists|i: int| 0 <= i < s.len() && s[i].from == from && s[i].to == to
}

pub open spec fn edge_index_of(s: Seq<SynapticEdge>, from: ConceptId, to: ConceptId) -> int {
    choose|i: int| 0 <= i < s.len() && s[i].from == from && s[i].to == to
}

pub open spec fn edge_lookup(s: Seq<SynapticEdge>, from: ConceptId, to: ConceptId) -> SynapticEdge {
    s[edge_index_of(s, from, to)]
}

/// `t` agrees with `s` on every edge key other than `(from, to)`.
pub open spec fn edges_same_except(
    s: Seq<SynapticEdge>,
    t: Seq<SynapticEdge>,
    from: ConceptId,
    to: ConceptId,
) -> bool {
    forall|x: ConceptId, y: ConceptId|
        !(x == from && y == to) ==> #[trigger] has_edge_key(t, x, y) == has_edge_key(s, x, y) && (
        has_edge_key(s, x, y) ==> edge_lookup(t, x, y) == edge_lookup(s, x, y))
}

pub open spec fn wm_keys_unique(s: Seq<(ConceptId, i64)>) -> bool {
    forall|i: int, j: int| 0 <= i < j < s.len() ==> s[i].0 != s[j].0
}

pub open spec fn wm_has(s: Seq<(ConceptId, i64)>, id: ConceptId) -> bool {
    exists|i: int| 0 <= i < s.len() && s[i].0 == id
}

pub open spec fn wm_index_of(s: Seq<(ConceptId, i64)>, id: ConceptId) -> int {
    choose|i: int| 0 <= i < s.len() && s[i].0 == id
}

pub open spec fn wm_time(s: Seq<(ConceptId, i64)>, id: ConceptId) -> i64 {
    s[wm_index_of(s, id)].1
}

/// `t` agrees with `s` on every working-memory key other than `id`.
pub open spec fn wm_same_except(
    s: Seq<(ConceptId, i64)>,
    t: Seq<(ConceptId, i64)>,
    id: ConceptId,
) -> bool {
    forall|x: ConceptId|
        x != id ==> #[trigger] wm_has(t, x) == wm_has(s, x) && (wm_has(s, x) ==> wm_time(t, x)
            == wm_time(s, x))
}

pub open spec fn edges_wf(s: Seq<SynapticEdge>) -> bool {
    forall|i: int| 0 <= i < s.len() ==> (#[trigger] s[i]).wf()
}

pub open spec fn edge_endpoints_exist(s: Seq<SynapticEdge>, concepts: Seq<Concept>) -> bool {
    forall|i: int|
        0 <= i < s.len() ==> has_concept_id(concepts, (#[trigger] s[i]).from) && has_concept_id(
            concepts,
            s[i].to,
        )
}

pub open spec fn zones_disjoint(st: Seq<SynapticEdge>, lt: Seq<SynapticEdge>) -> bool {
    forall|i: int| 0 <= i < st.len() ==> !has_edge_key(lt, (#[trigger] st[i]).from, st[i].to)
}

/// Whether an edge is incident to the given concept.
pub open spec fn touches(e: SynapticEdge, id: ConceptId) -> bool {
    e.from == id || e.to == id
}

/// Every edge incident to `id` activated with `rate` at `now`; the rest kept.
pub open spec fn strengthen_incident(
    s: Seq<SynapticEdge>,
    id: ConceptId,
    rate: u64,
    now: i64,
) -> Seq<SynapticEdge> {
    Seq::new(
        s.len(),
        |i: int|
            if touches(s[i], id) {
                activated_edge(s[i], rate, now)
            } else {
                s[i]
            },
    )
}

/// Memory system statistics.
#[derive(Debug, Clone, Copy, PartialEq, Eq, Structural)]
pub struct MemoryStats {
    pub total_concepts: usize,
    pub short_term_connections: usize,
    pub long_term_connections: usize,
    pub working_memory_size: usize,
    pub last_consolidation: i64,
}

/// The core dual-zone memory graph.
#[derive(Debug)]
pub struct MemoryGraph {
    /// All concepts in the system, keyed by identifier.
    pub concepts: Vec<Concept>,
    /// Short-term edges (hippocampus analog), keyed by `(from, to)`.
    pub short_term_edges: Vec<SynapticEdge>,
    /// Long-term edges (cortex analog), keyed by `(from, to)`.
    pub long_term_edges: Vec<SynapticEdge>,
    /// Recently touched concepts and the time of the most recent touch.
    pub working_memory: Vec<(ConceptId, i64)>,
    /// Configuration parameters.
    pub config: MemoryConfig,
    /// When consolidation last ran.
    pub last_consolidation: i64,
}

impl MemoryGraph {
    /// The shared graph invariants.
    pub open spec fn wf(self) -> bool {
        &&& concept_ids_unique(self.concepts@)
        &&& edge_keys_unique(self.short_term_edges@)
        &&& edge_keys_unique(self.long_term_edges@)
        &&& wm_keys_unique(self.working_memory@)
        &&& edges_wf(self.short_term_edges@)
        &&& edges_wf(self.long_term_edges@)
        &&& edge_endpoints_exist(self.short_term_edges@, self.concepts@)
        &&& edge_endpoints_exist(self.long_term_edges@, self.concepts@)
        &&& zones_disjoint(self.short_term_edges@, self.long_term_edges@)
        &&& self.config.wf()
    }

    /// Create an empty graph under the given configuration.
    pub fn new(config: MemoryConfig, now: i64) -> (r: Self)
        requires
            config.wf(),
        ensures
            r.wf(),
            r.concepts@ =~= Seq::<Concept>::empty(),
            r.short_term_edges@ =~= Seq::<SynapticEdge>::empty(),
            r.long_term_edges@ =~= Seq::<SynapticEdge>::empty(),
            r.working_memory@ =~= Seq::<(ConceptId, i64)>::empty(),
            r.config == config,
            r.last_consolidation == now,
    {
        MemoryGraph {
            concepts: Vec::new(),
            short_term_edges: Vec::new(),
            long_term_edges: Vec::new(),
            working_memory: Vec::new(),
            config,
            last_consolidation: now,
        }
    }

    /// Create an empty graph under the default configuration.
    pub fn new_with_defaults(now: i64) -> (r: Self)
        ensures
            r.wf(),
            r.concepts@.len() == 0,
            r.short_term_edges@.len() == 0,
            r.long_term_edges@.len() == 0,
            r.working_memory@.len() == 0,
            r.last_consolidation == now,
    {
        MemoryGraph::new(MemoryConfig::default(), now)
    }
}

/// If `s[i]` carries `id` and keys are unique, the spec lookup resolves to `i`.
pub proof fn lemma_concept_index(s: Seq<Concept>, id: ConceptId, i: int)
    requires
        concept_ids_unique(s),
        0 <= i < s.len(),
        s[i].id == id,
    ensures
        has_concept_id(s, id),
        concept_index_of(s, id) == i,
        concept_lookup(s, id) == s[i],
{
    assert(has_concept_id(s, id));
    let j = concept_index_of(s, id);
    assert(0 <= j < s.len() && s[j].id == id);
    if i != j {
        assert(false);
    }
}

/// If `s[i]` carries key `(from, to)` and keys are unique, the spec lookup
/// resolves to `i`.
pub proof fn lemma_edge_index(s: Seq<SynapticEdge>, from: ConceptId, to: ConceptId, i: int)
    requires
        edge_keys_unique(s),
        0 <= i < s.len(),
        s[i].from == from,
        s[i].to == to,
    ensures
        has_edge_key(s, from, to),
        edge_index_of(s, from, to) == i,
        edge_lookup(s, from, to) == s[i],
{
    assert(has_edge_key(s, from, to));
    let j = edge_index_of(s, from, to);
    assert(0 <= j < s.len() && s[j].from == from && s[j].to == to);
    if i != j {
        assert(false);
    }
}

/// If `s[i]` carries `id` and keys are unique, the spec lookup resolves to `i`.
pub proof fn lemma_wm_index(s: Seq<(ConceptId, i64)>, id: ConceptId, i: int)
    requires
        wm_keys_unique(s),
        0 <= i < s.len(),
        s[i].0 == id,
    ensures
        wm_has(s, id),
        wm_index_of(s, id) == i,
        wm_time(s, id) == s[i].1,
{
    assert(wm_has(s, id));
    let j = wm_index_of(s, id);
    assert(0 <= j < s.len() && s[j].0 == id);
    if i != j {
        assert(false);
    }
}

/// Find the index of the concept with the given identifier.
pub fn find_concept(v: &Vec<Concept>, id: ConceptId) -> (r: Option<usize>)
    ensures
        r.is_some() ==> r.unwrap() < v@.len() && v@[r.unwrap() as int].id == id && has_concept_id(
            v@,
            id,
        ),
        r.is_none() ==> !has_concept_id(v@, id),
{
    let mut i: usize = 0;
    while i < v.len()
        invariant
            i <= v@.len(),
            forall|j: int| 0 <= j < i ==> v@[j].id != id,
        decreases v@.len() - i,
    {
        if v[i].id == id {
            return Some(i);
        }
        i = i + 1;
    }
    None
}

/// Find the index of the edge with the given key.
pub fn find_edge(v: &Vec<SynapticEdge>, from: ConceptId, to: ConceptId) -> (r: Option<usize>)
    ensures
        r.is_some() ==> r.unwrap() < v@.len() && v@[r.unwrap() as int].from == from && v@[r.unwrap()
            as int].to == to && has_edge_key(v@, from, to),
        r.is_none() ==> !has_edge_key(v@, from, to),
{
    let mut i: usize = 0;
    while i < v.len()
        invariant
            i <= v@.len(),
            forall|j: int| 0 <= j < i ==> !(v@[j].from == from && v@[j].to == to),
        decreases v@.len() - i,
    {
        if v[i].from == from && v[i].to == to {
            return Some(i);
        }
        i = i + 1;
    }
    None
}

/// Find the index of the working-memory entry for the given identifier.
pub fn find_working(v: &Vec<(ConceptId, i64)>, id: ConceptId) -> (r: Option<usize>)
    ensures
        r.is_some() ==> r.unwrap() < v@.len() && v@[r.unwrap() as int].0 == id && wm_has(v@, id),
        r.is_none() ==> !wm_has(v@, id),
{
    let mut i: usize = 0;
    while i < v.len()
        invariant
            i <= v@.len(),
            forall|j: int| 0 <= j < i ==> v@[j].0 != id,
        decreases v@.len() - i,
    {
        if v[i].0 == id {
            return Some(i);
        }
        i = i + 1;
    }
    None
}

/// Refresh (or create) the working-memory entry for `id` at time `now`.
pub fn touch_working(wm: &mut Vec<(ConceptId, i64)>, id: ConceptId, now: i64)
    requires
        wm_keys_unique(old(wm)@),
    ensures
        wm_keys_unique(final(wm)@),
        wm_has(final(wm)@, id),
        wm_time(final(wm)@, id) == now,
        wm_same_except(old(wm)@, final(wm)@, id),
        final(wm)@.len() == old(wm)@.len() + if wm_has(old(wm)@, id) {
            0int
        } else {
            1int
        },
{
    let ghost s0 = wm@;
    match find_working(wm, id) {
        Some(i) => {
            wm[i] = (id, now);
            proof {
                let s1 = wm@;
                assert forall|a: int, b: int| 0 <= a < b < s1.len() implies s1[a].0
                    != s1[b].0 by {
                    assert(s0[a].0 != s0[b].0);
                }
                lemma_wm_index(s1, id, i as int);
                assert forall|x: ConceptId| x != id implies #[trigger] wm_has(s1, x) == wm_has(
                    s0,
                    x,
                ) && (wm_has(s0, x) ==> wm_time(s1, x) == wm_time(s0, x)) by {
                    if wm_has(s0, x) {
                        let j = wm_index_of(s0, x);
                        assert(s1[j].0 == x);
                        lemma_wm_index(s1, x, j);
                        lemma_wm_index(s0, x, j);
                    }
                    if wm_has(s1, x) {
                        let j = wm_index_of(s1, x);
                        assert(s0[j].0 == x);
                        lemma_wm_index(s0, x, j);
                    }
                }
            }
        },
        None => {
            wm.push((id, now));
            proof {
                let s1 = wm@;
                assert forall|a: int, b: int| 0 <= a < b < s1.len() implies s1[a].0
                    != s1[b].0 by {
                    if b < s0.len() {
                        assert(s0[a].0 != s0[b].0);
                    } else {
                        assert(s1[b].0 == id);
                        assert(!wm_has(s0, id));
                        assert(s1[a] == s0[a]);
                    }
                }
                lemma_wm_index(s1, id, s0.len() as int);
                assert forall|x: ConceptId| x != id implies #[trigger] wm_has(s1, x) == wm_has(
                    s0,
                    x,
                ) && (wm_has(s0, x) ==> wm_time(s1, x) == wm_time(s0, x)) by {
                    if wm_has(s0, x) {
                        let j = wm_index_of(s0, x);
                        assert(s1[j].0 == x);
                        lemma_wm_index(s1, x, j);
                        lemma_wm_index(s0, x, j);
                    }
                    if wm_has(s1, x) {
                        let j = wm_index_of(s1, x);
                        assert(s0[j].0 == x);
                        lemma_wm_index(s0, x, j);
                    }
                }
            }
        },
    }
}

/// The shared graph invariants, stated on their own: in a well-formed
/// graph, both endpoints of every edge in either zone exist in the concept
/// table, and no edge key is held by both zones at once.
pub proof fn lemma_graph_invariants(g: MemoryGraph)
    requires
        g.wf(),
    ensures
        forall|i: int|
            0 <= i < g.short_term_edges@.len() ==> has_concept_id(
                g.concepts@,
                (#[trigger] g.short_term_edges@[i]).from,
            ) && has_concept_id(g.concepts@, g.short_term_edges@[i].to),
        forall|i: int|
            0 <= i < g.long_term_edges@.len() ==> has_concept_id(
                g.concepts@,
                (#[trigger] g.long_term_edges@[i]).from,
            ) && has_concept_id(g.concepts@, g.long_term_edges@[i].to),
        forall|x: ConceptId, y: ConceptId|
            !(#[trigger] has_edge_key(g.short_term_edges@, x, y) && #[trigger] has_edge_key(
                g.long_term_edges@,
                x,
                y,
            )),
{
    assert forall|x: ConceptId, y: ConceptId|
        !(#[trigger] has_edge_key(g.short_term_edges@, x, y) && #[trigger] has_edge_key(
            g.long_term_edges@,
            x,
            y,
        )) by {
        if has_edge_key(g.short_term_edges@, x, y) {
            let i = edge_index_of(g.short_term_edges@, x, y);
            assert(!has_edge_key(
                g.long_term_edges@,
                g.short_term_edges@[i].from,
                g.short_term_edges@[i].to,
            ));
        }
    }
}

/// Pairwise distinctness of a key drawn from each element.
pub open spec fn keys_distinct<T, K>(s: Seq<T>, key: spec_fn(T) -> K) -> bool {
    forall|i: int, j: int| 0 <= i < j < s.len() ==> key(s[i]) != key(s[j])
}

/// Filtering keeps keys distinct, and every kept element comes from the
/// original sequence.
pub proof fn lemma_filter_keys_distinct<T, K>(s: Seq<T>, pred: spec_fn(T) -> bool, key: spec_fn(T) -> K)
    requires
        keys_distinct(s, key),
    ensures
        keys_distinct(s.filter(pred), key),
        forall|k: int|
            0 <= k < s.filter(pred).len() ==> s.contains(#[trigger] s.filter(pred)[k]),
    decreases s.len(),
{
    reveal(Seq::filter);
    if s.len() == 0 {
    } else {
        let d = s.drop_last();
        assert(keys_distinct(d, key));
        lemma_filter_keys_distinct(d, pred, key);
        let f = s.filter(pred);
        let df = d.filter(pred);
        assert forall|k: int| 0 <= k < f.len() implies s.contains(#[trigger] f[k]) by {
            if pred(s.last()) && k == f.len() - 1 {
                assert(f[k] == s.last());
                assert(s[s.len() - 1] == s.last());
            } else {
                assert(f[k] == df[k]);
                assert(d.contains(df[k]));
                let j = choose|j: int| 0 <= j < d.len() && d[j] == df[k];
                assert(s[j] == df[k]);
            }
        }
        assert forall|a: int, b: int| 0 <= a < b < f.len() implies key(f[a]) != key(f[b]) by {
            if pred(s.last()) && b == f.len() - 1 {
                assert(f[b] == s.last());
                assert(f[a] == df[a]);
                assert(d.contains(df[a]));
                let j = choose|j: int| 0 <= j < d.len() && d[j] == df[a];
                assert(s[j] == f[a]);
                assert(key(s[j]) != key(s[s.len() - 1]));
            } else {
                assert(f[a] == df[a] && f[b] == df[b]);
            }
        }
    }
}

/// Updating one element in place, keeping its key, changes nothing else.
pub proof fn lemma_edges_update(s0: Seq<SynapticEdge>, s1: Seq<SynapticEdge>, i: int)
    requires
        edge_keys_unique(s0),
        0 <= i < s0.len(),
        s1 == s0.update(i, s1[i]),
        s1.len() == s0.len(),
        s1[i].from == s0[i].from,
        s1[i].to == s0[i].to,
    ensures
        edge_keys_unique(s1),
        edges_same_except(s0, s1, s0[i].from, s0[i].to),
        has_edge_key(s1, s0[i].from, s0[i].to),
        edge_lookup(s1, s0[i].from, s0[i].to) == s1[i],
        forall|x: ConceptId, y: ConceptId|
            #[trigger] has_edge_key(s1, x, y) == has_edge_key(s0, x, y),
{
    assert forall|a: int, b: int| 0 <= a < b < s1.len() implies !(s1[a].from == s1[b].from
        && s1[a].to == s1[b].to) by {
        assert(s1[a].from == s0[a].from && s1[a].to == s0[a].to);
        assert(s1[b].from == s0[b].from && s1[b].to == s0[b].to);
    }
    lemma_edge_index(s1, s0[i].from, s0[i].to, i);
    assert forall|x: ConceptId, y: ConceptId| #[trigger] has_edge_key(s1, x, y) == has_edge_key(
        s0,
        x,
        y,
    ) by {
        if has_edge_key(s0, x, y) {
            let j = edge_index_of(s0, x, y);
            assert(s1[j].from == x && s1[j].to == y);
        }
        if has_edge_key(s1, x, y) {
            let j = edge_index_of(s1, x, y);
            assert(s0[j].from == x && s0[j].to == y);
        }
    }
    assert forall|x: ConceptId, y: ConceptId|
        !(x == s0[i].from && y == s0[i].to) && has_edge_key(s0, x, y) implies edge_lookup(s1, x, y)
        == edge_lookup(s0, x, y) by {
        let j = edge_index_of(s0, x, y);
        assert(0 <= j < s0.len() && s0[j].from == x && s0[j].to == y);
        assert(j != i);
        assert(s1[j] == s0[j]);
        lemma_edge_index(s1, x, y, j);
    }
}

/// Appending an edge under a fresh key changes nothing else.
pub proof fn lemma_edges_push(s0: Seq<SynapticEdge>, e: SynapticEdge)
    requires
        edge_keys_unique(s0),
        !has_edge_key(s0, e.from, e.to),
    ensures
        edge_keys_unique(s0.push(e)),
        edges_same_except(s0, s0.push(e), e.from, e.to),
        has_edge_key(s0.push(e), e.from, e.to),
        edge_lookup(s0.push(e), e.from, e.to) == e,
{
    let s1 = s0.push(e);
    assert forall|a: int, b: int| 0 <= a < b < s1.len() implies !(s1[a].from == s1[b].from
        && s1[a].to == s1[b].to) by {
        if b < s0.len() {
            assert(s1[a] == s0[a] && s1[b] == s0[b]);
        } else {
            assert(s1[b] == e);
            assert(s1[a] == s0[a]);
        }
    }
    lemma_edge_index(s1, e.from, e.to, s0.len() as int);
    assert forall|x: ConceptId, y: ConceptId|
        !(x == e.from && y == e.to) implies #[trigger] has_edge_key(s1, x, y) == has_edge_key(
        s0,
        x,
        y,
    ) && (has_edge_key(s0, x, y) ==> edge_lookup(s1, x, y) == edge_lookup(s0, x, y)) by {
        if has_edge_key(s0, x, y) {
            let j = edge_index_of(s0, x, y);
            assert(s1[j].from == x && s1[j].to == y);
            lemma_edge_index(s1, x, y, j);
            lemma_edge_index(s0, x, y, j);
        }
        if has_edge_key(s1, x, y) {
            let j = edge_index_of(s1, x, y);
            assert(j < s0.len());
            assert(s0[j].from == x && s0[j].to == y);
        }
    }
}

/// One step of filtering a growing prefix: filtering `i + 1` elements extends
/// the filtering of `i` elements by the `i`-th element when it is kept.
pub proof fn lemma_take_filter_step<T>(s: Seq<T>, pred: spec_fn(T) -> bool, i: int)
    requires
        0 <= i < s.len(),
    ensures
        s.take(i + 1).filter(pred) == if pred(s[i]) {
            s.take(i).filter(pred).push(s[i])
        } else {
            s.take(i).filter(pred)
        },
{
    reveal(Seq::filter);
    let t = s.take(i + 1);
    assert(t.drop_last() =~= s.take(i));
    assert(t.last() == s[i]);
}

/// Strengthen, in place, every edge incident to `id`.
pub fn strengthen_incident_edges(v: &mut Vec<SynapticEdge>, id: ConceptId, rate: u64, now: i64)
    requires
        edges_wf(old(v)@),
        edge_keys_unique(old(v)@),
    ensures
        final(v)@ == strengthen_incident(old(v)@, id, rate, now),
        final(v)@.len() == old(v)@.len(),
        edges_wf(final(v)@),
        edge_keys_unique(final(v)@),
        forall|k: int|
            0 <= k < final(v)@.len() ==> (#[trigger] final(v)@[k]).from == old(v)@[k].from
                && final(v)@[k].to == old(v)@[k].to,
{
    let ghost s0 = v@;
    let mut i: usize = 0;
    while i < v.len()
        invariant
            i <= s0.len(),
            v@.len() == s0.len(),
            forall|j: int| 0 <= j < i ==> v@[j] == strengthen_incident(s0, id, rate, now)[j],
            forall|j: int| i <= j < s0.len() ==> v@[j] == s0[j],
            edges_wf(s0),
        decreases s0.len() - i,
    {
        let e = v[i];
        proof {
            assert(e == s0[i as int]);
            assert(s0[i as int].wf());
        }
        if e.from == id || e.to == id {
            let mut e2 = e;
            e2.activate(rate, now);
            v[i] = e2;
        }
        i = i + 1;
    }
    proof {
        assert(v@ =~= strengthen_incident(s0, id, rate, now));
        assert forall|k: int| 0 <= k < v@.len() implies (#[trigger] v@[k]).wf() && v@[k].from
            == s0[k].from && v@[k].to == s0[k].to by {
            if touches(s0[k], id) {
                lemma_strengthen_bounds(s0[k].weight.0, rate);
            }
        }
        assert forall|a: int, b: int| 0 <= a < b < v@.len() implies !(v@[a].from == v@[b].from
            && v@[a].to == v@[b].to) by {
            assert(v@[a].from == s0[a].from && v@[a].to == s0[a].to);
            assert(v@[b].from == s0[b].from && v@[b].to == s0[b].to);
        }
    }
}

/// Removing a concept by filtering every table preserves well-formedness and
/// leaves no trace of the concept.
pub proof fn lemma_remove_concept_wf(g0: MemoryGraph, g1: MemoryGraph, id: ConceptId)
    requires
        g0.wf(),
        g1.concepts@ == g0.concepts@.filter(|c: Concept| c.id != id),
        g1.short_term_edges@ == g0.short_term_edges@.filter(|e: SynapticEdge| !touches(e, id)),
        g1.long_term_edges@ == g0.long_term_edges@.filter(|e: SynapticEdge| !touches(e, id)),
        g1.working_memory@ == g0.working_memory@.filter(|p: (ConceptId, i64)| p.0 != id),
        g1.config == g0.config,
    ensures
        g1.wf(),
        !has_concept_id(g1.concepts@, id),
        !wm_has(g1.working_memory@, id),
        forall|k: int|
            0 <= k < g1.short_term_edges@.len() ==> !touches(
                #[trigger] g1.short_term_edges@[k],
                id,
            ),
        forall|k: int|
            0 <= k < g1.long_term_edges@.len() ==> !touches(#[trigger] g1.long_term_edges@[k], id),
{
    broadcast use vstd::seq_lib::group_filter_ensures;

    let cpred = |c: Concept| c.id != id;
    let epred = |e: SynapticEdge| !touches(e, id);
    let wpred = |p: (ConceptId, i64)| p.0 != id;
    let c0 = g0.concepts@;
    let c1 = g1.concepts@;
    let st0 = g0.short_term_edges@;
    let st1 = g1.short_term_edges@;
    let lt0 = g0.long_term_edges@;
    let lt1 = g1.long_term_edges@;
    lemma_filter_keys_distinct(c0, cpred, |c: Concept| c.id);
    lemma_filter_keys_distinct(st0, epred, |e: SynapticEdge| (e.from, e.to));
    lemma_filter_keys_distinct(lt0, epred, |e: SynapticEdge| (e.from, e.to));
    lemma_filter_keys_distinct(g0.working_memory@, wpred, |p: (ConceptId, i64)| p.0);
    assert(concept_ids_unique(c1)) by {
        assert(keys_distinct(c1, |c: Concept| c.id));
    }
    assert(edge_keys_unique(st1)) by {
        assert(keys_distinct(st1, |e: SynapticEdge| (e.from, e.to)));
        assert forall|a: int, b: int| 0 <= a < b < st1.len() implies !(st1[a].from == st1[b].from
            && st1[a].to == st1[b].to) by {
            let key = |e: SynapticEdge| (e.from, e.to);
            assert(key(st1[a]) != key(st1[b]));
        }
    }
    assert(edge_keys_unique(lt1)) by {
        assert forall|a: int, b: int| 0 <= a < b < lt1.len() implies !(lt1[a].from == lt1[b].from
            && lt1[a].to == lt1[b].to) by {
            let key = |e: SynapticEdge| (e.from, e.to);
            assert(key(lt1[a]) != key(lt1[b]));
        }
    }
    assert(wm_keys_unique(g1.working_memory@)) by {
        assert forall|a: int, b: int| 0 <= a < b < g1.working_memory@.len() implies
            g1.working_memory@[a].0 != g1.working_memory@[b].0 by {
            let key = |p: (ConceptId, i64)| p.0;
            assert(key(g1.working_memory@[a]) != key(g1.working_memory@[b]));
        }
    }
    if has_concept_id(c1, id) {
        let i = concept_index_of(c1, id);
        assert(cpred(c1[i]));
        assert(false);
    }
    if wm_has(g1.working_memory@, id) {
        let i = wm_index_of(g1.working_memory@, id);
        assert(wpred(g1.working_memory@[i]));
        assert(false);
    }
    assert forall|k: int| 0 <= k < st1.len() implies !touches(#[trigger] st1[k], id) by {
        assert(epred(st1[k]));
    }
    assert forall|k: int| 0 <= k < lt1.len() implies !touches(#[trigger] lt1[k], id) by {
        assert(epred(lt1[k]));
    }
    assert forall|k: int| 0 <= k < st1.len() implies edge_ok_after_remove(st1[k], c1)
        && (#[trigger] st1[k]).wf() by {
        assert(st0.contains(st1[k]));
        let j = choose|j: int| 0 <= j < st0.len() && st0[j] == st1[k];
        assert(st0[j].wf());
        lemma_endpoint_survives(st0[j], c0, c1, id, cpred);
    }
    assert forall|k: int| 0 <= k < lt1.len() implies edge_ok_after_remove(lt1[k], c1)
        && (#[trigger] lt1[k]).wf() by {
        assert(lt0.contains(lt1[k]));
        let j = choose|j: int| 0 <= j < lt0.len() && lt0[j] == lt1[k];
        assert(lt0[j].wf());
        lemma_endpoint_survives(lt0[j], c0, c1, id, cpred);
    }
    assert(edge_endpoints_exist(st1, c1));
    assert(edge_endpoints_exist(lt1, c1));
    assert forall|k: int| 0 <= k < st1.len() implies !has_edge_key(
        lt1,
        (#[trigger] st1[k]).from,
        st1[k].to,
    ) by {
        assert(st0.contains(st1[k]));
        let j = choose|j: int| 0 <= j < st0.len() && st0[j] == st1[k];
        assert(!has_edge_key(lt0, st0[j].from, st0[j].to));
        if has_edge_key(lt1, st1[k].from, st1[k].to) {
            let m = edge_index_of(lt1, st1[k].from, st1[k].to);
            assert(lt0.contains(lt1[m]));
            let n = choose|n: int| 0 <= n < lt0.len() && lt0[n] == lt1[m];
            assert(lt0[n].from == st0[j].from && lt0[n].to == st0[j].to);
        }
    }
}

/// An edge's endpoints both exist in the given concept table.
pub open spec fn edge_ok_after_remove(e: SynapticEdge, c1: Seq<Concept>) -> bool {
    has_concept_id(c1, e.from) && has_concept_id(c1, e.to)
}

/// If an edge does not touch the removed concept and its endpoints exist in
/// the original table, they exist in the filtered table.
pub proof fn lemma_endpoint_survives(
    e: SynapticEdge,
    c0: Seq<Concept>,
    c1: Seq<Concept>,
    id: ConceptId,
    cpred: spec_fn(Concept) -> bool,
)
    requires
        !touches(e, id),
        has_concept_id(c0, e.from),
        has_concept_id(c0, e.to),
        c1 == c0.filter(cpred),
        cpred == (|c: Concept| c.id != id),
    ensures
        has_concept_id(c1, e.from),
        has_concept_id(c1, e.to),
{
    broadcast use vstd::seq_lib::group_filter_ensures;

    let i = concept_index_of(c0, e.from);
    assert(0 <= i < c0.len() && c0[i].id == e.from);
    assert(cpred(c0[i]));
    assert(c1.contains(c0[i]));
    let i2 = choose|k: int| 0 <= k < c1.len() && c1[k] == c0[i];
    assert(c1[i2].id == e.from);
    let j = concept_index_of(c0, e.to);
    assert(0 <= j < c0.len() && c0[j].id == e.to);
    assert(cpred(c0[j]));
    assert(c1.contains(c0[j]));
    let j2 = choose|k: int| 0 <= k < c1.len() && c1[k] == c0[j];
    assert(c1[j2].id == e.to);
}

/// A key present in either zone is present in their concatenation.
pub proof fn lemma_key_in_union(
    st: Seq<SynapticEdge>,
    lt: Seq<SynapticEdge>,
    x: ConceptId,
    y: ConceptId,
)
    requires
        has_edge_key(st, x, y) || has_edge_key(lt, x, y),
    ensures
        has_edge_key(st.add(lt), x, y),
{
    if has_edge_key(st, x, y) {
        let i = edge_index_of(st, x, y);
        assert(st.add(lt)[i] == st[i]);
    } else {
        let i = edge_index_of(lt, x, y);
        assert(st.add(lt)[st.len() + i] == lt[i]);
    }
}

/// Store a concept under its identifier, overwriting any previous value.
pub fn store_concept(v: &mut Vec<Concept>, c: Concept)
    requires
        concept_ids_unique(old(v)@),
    ensures
        concept_ids_unique(final(v)@),
        has_concept_id(final(v)@, c.id),
        concept_lookup(final(v)@, c.id) == c,
        concepts_same_except(old(v)@, final(v)@, c.id),
        forall|x: ConceptId| has_concept_id(old(v)@, x) ==> has_concept_id(final(v)@, x),
        final(v)@.len() == old(v)@.len() + if has_concept_id(old(v)@, c.id) {
            0int
        } else {
            1int
        },
{
    let ghost s0 = v@;
    let id = c.id;
    match find_concept(v, id) {
        Some(i) => {
            v[i] = c;
            proof {
                let s1 = v@;
                assert forall|a: int, b: int| 0 <= a < b < s1.len() implies s1[a].id
                    != s1[b].id by {
                    assert(s0[a].id != s0[b].id);
                }
                lemma_concept_index(s1, id, i as int);
                assert forall|x: ConceptId| x != id implies #[trigger] has_concept_id(s1, x)
                    == has_concept_id(s0, x) && (has_concept_id(s0, x) ==> concept_eq(
                    concept_lookup(s1, x),
                    concept_lookup(s0, x),
                )) by {
                    if has_concept_id(s0, x) {
                        let j = concept_index_of(s0, x);
                        assert(s1[j].id == x);
                        lemma_concept_index(s1, x, j);
                        lemma_concept_index(s0, x, j);
                    }
                    if has_concept_id(s1, x) {
                        let j = concept_index_of(s1, x);
                        assert(s0[j].id == x);
                        lemma_concept_index(s0, x, j);
                    }
                }
                assert forall|x: ConceptId| has_concept_id(s0, x) implies has_concept_id(
                    s1,
                    x,
                ) by {
                    let j = concept_index_of(s0, x);
                    assert(s1[j].id == x || x == id);
                }
            }
        },
        None => {
            v.push(c);
            proof {
                let s1 = v@;
                assert forall|a: int, b: int| 0 <= a < b < s1.len() implies s1[a].id
                    != s1[b].id by {
                    if b < s0.len() {
                        assert(s0[a].id != s0[b].id);
                    } else {
                        assert(s1[b].id == id);
                        assert(!has_concept_id(s0, id));
                        assert(s1[a] == s0[a]);
                    }
                }
                lemma_concept_index(s1, id, s0.len() as int);
                assert forall|x: ConceptId| x != id implies #[trigger] has_concept_id(s1, x)
                    == has_concept_id(s0, x) && (has_concept_id(s0, x) ==> concept_eq(
                    concept_lookup(s1, x),
                    concept_lookup(s0, x),
                )) by {
                    if has_concept_id(s0, x) {
                        let j = concept_index_of(s0, x);
                        assert(s1[j].id == x);
                        lemma_concept_index(s1, x, j);
                        lemma_concept_index(s0, x, j);
                    }
                    if has_concept_id(s1, x) {
                        let j = concept_index_of(s1, x);
                        assert(j < s0.len());
                        assert(s0[j].id == x);
                    }
                }
                assert forall|x: ConceptId| has_concept_id(s0, x) implies has_concept_id(
                    s1,
                    x,
                ) by {
                    let j = concept_index_of(s0, x);
                    assert(s1[j].id == x);
                }
            }
        },
    }
}

/// The whole effect of `associate(from, to)` on a graph, as a relation
/// between the state before (`g0`) and after (`g1`): nothing but the two
/// edge zones and working memory moves, an absent endpoint fails the call
/// and changes nothing, and otherwise an existing edge is activated in its
/// zone or a fresh short-term edge is created.
pub open spec fn associate_effect(
    g0: MemoryGraph,
    g1: MemoryGraph,
    from: ConceptId,
    to: ConceptId,
    now: i64,
    r: Result<(), MemoryError>,
) -> bool {
    &&& g1.concepts@ == g0.concepts@
    &&& g1.config == g0.config
    &&& g1.last_consolidation == g0.last_consolidation
    &&& (!(has_concept_id(g0.concepts@, from) && has_concept_id(g0.concepts@, to)) ==> r
        == Err::<(), MemoryError>(MemoryError::UnknownConcept) && g1 == g0)
    &&& (has_concept_id(g0.concepts@, from) && has_concept_id(g0.concepts@, to) ==> {
        let st0 = g0.short_term_edges@;
        let lt0 = g0.long_term_edges@;
        let st1 = g1.short_term_edges@;
        let lt1 = g1.long_term_edges@;
        let rate = g0.config.learning_rate;
        &&& r == Ok::<(), MemoryError>(())
        &&& wm_has(g1.working_memory@, from)
        &&& wm_has(g1.working_memory@, to)
        &&& wm_time(g1.working_memory@, to) == now
        &&& (from != to ==> wm_time(g1.working_memory@, from) == now)
        &&& forall|x: ConceptId|
            x != from && x != to ==> #[trigger] wm_has(g1.working_memory@, x) == wm_has(
                g0.working_memory@,
                x,
            ) && (wm_has(g0.working_memory@, x) ==> wm_time(g1.working_memory@, x) == wm_time(
                g0.working_memory@,
                x,
            ))
        &&& if has_edge_key(st0, from, to) {
            &&& st1.len() == st0.len()
            &&& has_edge_key(st1, from, to)
            &&& edge_lookup(st1, from, to) == activated_edge(
                edge_lookup(st0, from, to),
                rate,
                now,
            )
            &&& edges_same_except(st0, st1, from, to)
            &&& lt1 == lt0
        } else if has_edge_key(lt0, from, to) {
            &&& lt1.len() == lt0.len()
            &&& has_edge_key(lt1, from, to)
            &&& edge_lookup(lt1, from, to) == activated_edge(
                edge_lookup(lt0, from, to),
                rate,
                now,
            )
            &&& edges_same_except(lt0, lt1, from, to)
            &&& st1 == st0
        } else {
            &&& st1 == st0.push(
                SynapticEdge {
                    from,
                    to,
                    weight: SynapticWeight(INITIAL_WEIGHT),
                    created_at: now,
                    last_accessed: now,
                    activation_count: 0,
                },
            )
            &&& lt1 == lt0
        }
    })
}

impl MemoryGraph {
    /// Insert a concept: it is marked accessed once, stored under its
    /// identifier, and added to working memory at the current time.
    pub fn add_concept(&mut self, concept: Concept, now: i64) -> (r: ConceptId)
        requires
            old(self).wf(),
        ensures
            final(self).wf(),
            r == concept.id,
            has_concept_id(final(self).concepts@, r),
            concept_eq(
                concept_lookup(final(self).concepts@, r),
                accessed_concept(concept, now),
            ),
            concepts_same_except(old(self).concepts@, final(self).concepts@, r),
            final(self).concepts@.len() == old(self).concepts@.len() + if has_concept_id(
                old(self).concepts@,
                r,
            ) {
                0int
            } else {
                1int
            },
            wm_has(final(self).working_memory@, r),
            wm_time(final(self).working_memory@, r) == now,
            wm_same_except(old(self).working_memory@, final(self).working_memory@, r),
            final(self).short_term_edges@ == old(self).short_term_edges@,
            final(self).long_term_edges@ == old(self).long_term_edges@,
            final(self).config == old(self).config,
            final(self).last_consolidation == old(self).last_consolidation,
    {
        let ghost g0 = *self;
        let mut c = concept;
        c.access(now);
        let id = c.id;
        store_concept(&mut self.concepts, c);
        touch_working(&mut self.working_memory, id, now);
        proof {
            assert forall|i: int| 0 <= i < self.short_term_edges@.len() implies has_concept_id(
                self.concepts@,
                (#[trigger] self.short_term_edges@[i]).from,
            ) && has_concept_id(self.concepts@, self.short_term_edges@[i].to) by {
                assert(has_concept_id(g0.concepts@, self.short_term_edges@[i].from));
                assert(has_concept_id(g0.concepts@, self.short_term_edges@[i].to));
            }
            assert forall|i: int| 0 <= i < self.long_term_edges@.len() implies has_concept_id(
                self.concepts@,
                (#[trigger] self.long_term_edges@[i]).from,
            ) && has_concept_id(self.concepts@, self.long_term_edges@[i].to) by {
                assert(has_concept_id(g0.concepts@, self.long_term_edges@[i].from));
                assert(has_concept_id(g0.concepts@, self.long_term_edges@[i].to));
            }
        }
        id
    }

    /// Create a concept from content under a fresh random identifier and
    /// insert it.  This is the raw graph operation; the facade surface
    /// validates content first through [`MemoryGraph::learn_checked`].
    pub fn learn(&mut self, content: String, now: i64) -> (r: ConceptId)
        requires
            old(self).wf(),
        ensures
            final(self).wf(),
            has_concept_id(final(self).concepts@, r),
            ({
                let c = concept_lookup(final(self).concepts@, r);
                &&& c.content@ == content@
                &&& c.created_at == now
                &&& c.last_accessed == now
                &&& c.access_count == 1
            }),
            concepts_same_except(old(self).concepts@, final(self).concepts@, r),
            final(self).concepts@.len() == old(self).concepts@.len() + if has_concept_id(
                old(self).concepts@,
                r,
            ) {
                0int
            } else {
                1int
            },
            wm_has(final(self).working_memory@, r),
            wm_time(final(self).working_memory@, r) == now,
            wm_same_except(old(self).working_memory@, final(self).working_memory@, r),
            final(self).short_term_edges@ == old(self).short_term_edges@,
            final(self).long_term_edges@ == old(self).long_term_edges@,
            final(self).config == old(self).config,
            final(self).last_consolidation == old(self).last_consolidation,
    {
        let concept = Concept::new(content, now);
        self.add_concept(concept, now)
    }

    /// `learn`, with the facade's input validation: empty content is rejected
    /// with `InvalidInput` and the graph is left unchanged.
    pub fn learn_checked(&mut self, content: String, now: i64) -> (r: Result<
        ConceptId,
        MemoryError,
    >)
        requires
            old(self).wf(),
        ensures
            final(self).wf(),
            content@.len() == 0 ==> r == Err::<ConceptId, MemoryError>(MemoryError::InvalidInput)
                && *final(self) == *old(self),
            content@.len() > 0 ==> r.is_ok(),
            r.is_ok() <==> content@.len() > 0,
            r.is_ok() ==> has_concept_id(final(self).concepts@, r.unwrap()) && concept_lookup(
                final(self).concepts@,
                r.unwrap(),
            ).content@ == content@ && final(self).concepts@.len() == old(self).concepts@.len()
                + if has_concept_id(old(self).concepts@, r.unwrap()) {
                0int
            } else {
                1int
            },
    {
        if content.as_str().is_empty() {
            Err(MemoryError::InvalidInput)
        } else {
            Ok(self.learn(content, now))
        }
    }

    /// Fetch a copy of the concept with the given identifier.
    pub fn get_concept(&self, id: ConceptId) -> (r: Option<Concept>)
        requires
            self.wf(),
        ensures
            r.is_some() == has_concept_id(self.concepts@, id),
            r.is_some() ==> concept_eq(r.unwrap(), concept_lookup(self.concepts@, id)),
    {
        match find_concept(&self.concepts, id) {
            Some(i) => {
                proof {
                    lemma_concept_index(self.concepts@, id, i as int);
                }
                Some(self.concepts[i].duplicate())
            },
            None => None,
        }
    }

    /// All concept identifiers, in table order.
    pub fn get_all_concept_ids(&self) -> (r: Vec<ConceptId>)
        ensures
            r@.len() == self.concepts@.len(),
            forall|i: int| 0 <= i < r@.len() ==> r@[i] == self.concepts@[i].id,
    {
        let mut out: Vec<ConceptId> = Vec::new();
        let mut i: usize = 0;
        while i < self.concepts.len()
            invariant
                i <= self.concepts@.len(),
                out@.len() == i,
                forall|j: int| 0 <= j < i ==> out@[j] == self.concepts@[j].id,
            decreases self.concepts@.len() - i,
        {
            out.push(self.concepts[i].id);
            i = i + 1;
        }
        out
    }

    /// Current table sizes and the last-consolidation timestamp.
    pub fn get_stats(&self) -> (r: MemoryStats)
        ensures
            r.total_concepts == self.concepts@.len(),
            r.short_term_connections == self.short_term_edges@.len(),
            r.long_term_connections == self.long_term_edges@.len(),
            r.working_memory_size == self.working_memory@.len(),
            r.last_consolidation == self.last_consolidation,
    {
        MemoryStats {
            total_concepts: self.concepts.len(),
            short_term_connections: self.short_term_edges.len(),
            long_term_connections: self.long_term_edges.len(),
            working_memory_size: self.working_memory.len(),
            last_consolidation: self.last_consolidation,
        }
    }

    /// Create or strengthen the association `from -> to`.
    ///
    /// Fails with `UnknownConcept`, changing nothing, when either endpoint is
    /// absent.  An existing edge is activated in whichever zone holds it (a
    /// long-term edge stays long-term); otherwise a fresh short-term edge is
    /// created at the initial weight.  Both endpoints are refreshed in working
    /// memory.
    pub fn associate(&mut self, from: ConceptId, to: ConceptId, now: i64) -> (r: Result<
        (),
        MemoryError,
    >)
        requires
            old(self).wf(),
        ensures
            final(self).wf(),
            associate_effect(*old(self), *final(self), from, to, now, r),
    {
        let ghost g0 = *self;
        if find_concept(&self.concepts, from).is_none() {
            return Err(MemoryError::UnknownConcept);
        }
        if find_concept(&self.concepts, to).is_none() {
            return Err(MemoryError::UnknownConcept);
        }
        let rate = self.config.learning_rate;
        match find_edge(&self.short_term_edges, from, to) {
            Some(i) => {
                let mut e = self.short_term_edges[i];
                proof {
                    lemma_edge_index(g0.short_term_edges@, from, to, i as int);
                }
                e.activate(rate, now);
                self.short_term_edges[i] = e;
                proof {
                    lemma_edges_update(g0.short_term_edges@, self.short_term_edges@, i as int);
                    assert forall|k: int| 0 <= k < self.short_term_edges@.len() implies (
                    #[trigger] self.short_term_edges@[k]).wf() by {
                        if k != i {
                            assert(self.short_term_edges@[k] == g0.short_term_edges@[k]);
                        }
                    }
                    assert forall|k: int| 0 <= k < self.short_term_edges@.len() implies
                        has_concept_id(
                        self.concepts@,
                        (#[trigger] self.short_term_edges@[k]).from,
                    ) && has_concept_id(self.concepts@, self.short_term_edges@[k].to)
                        && !has_edge_key(
                        self.long_term_edges@,
                        self.short_term_edges@[k].from,
                        self.short_term_edges@[k].to,
                    ) by {
                        assert(self.short_term_edges@[k].from == g0.short_term_edges@[k].from);
                        assert(self.short_term_edges@[k].to == g0.short_term_edges@[k].to);
                    }
                }
            },
            None => {
                match find_edge(&self.long_term_edges, from, to) {
                    Some(i) => {
                        let mut e = self.long_term_edges[i];
                        proof {
                            lemma_edge_index(g0.long_term_edges@, from, to, i as int);
                        }
                        e.activate(rate, now);
                        self.long_term_edges[i] = e;
                        proof {
                            lemma_edges_update(
                                g0.long_term_edges@,
                                self.long_term_edges@,
                                i as int,
                            );
                            assert forall|k: int| 0 <= k < self.long_term_edges@.len() implies (
                            #[trigger] self.long_term_edges@[k]).wf() by {
                                if k != i {
                                    assert(self.long_term_edges@[k] == g0.long_term_edges@[k]);
                                }
                            }
                            assert forall|k: int| 0 <= k < self.long_term_edges@.len() implies
                                has_concept_id(
                                self.concepts@,
                                (#[trigger] self.long_term_edges@[k]).from,
                            ) && has_concept_id(self.concepts@, self.long_term_edges@[k].to) by {
                                assert(self.long_term_edges@[k].from
                                    == g0.long_term_edges@[k].from);
                                assert(self.long_term_edges@[k].to == g0.long_term_edges@[k].to);
                            }
                            assert forall|k: int| 0 <= k < self.short_term_edges@.len() implies
                                !has_edge_key(
                                self.long_term_edges@,
                                (#[trigger] self.short_term_edges@[k]).from,
                                self.short_term_edges@[k].to,
                            ) by {
                                assert(!has_edge_key(
                                    g0.long_term_edges@,
                                    self.short_term_edges@[k].from,
                                    self.short_term_edges@[k].to,
                                ));
                            }
                        }
                    },
                    None => {
                        let e = SynapticEdge::new(from, to, now);
                        self.short_term_edges.push(e);
                        proof {
                            lemma_edges_push(g0.short_term_edges@, e);
                            assert forall|k: int| 0 <= k < self.short_term_edges@.len() implies (
                            #[trigger] self.short_term_edges@[k]).wf() && has_concept_id(
                                self.concepts@,
                                self.short_term_edges@[k].from,
                            ) && has_concept_id(self.concepts@, self.short_term_edges@[k].to)
                                && !has_edge_key(
                                self.long_term_edges@,
                                self.short_term_edges@[k].from,
                                self.short_term_edges@[k].to,
                            ) by {
                                if k < g0.short_term_edges@.len() {
                                    assert(self.short_term_edges@[k] == g0.short_term_edges@[k]);
                                } else {
                                    assert(self.short_term_edges@[k] == e);
                                }
                            }
                        }
                    },
                }
            },
        }
        let ghost wm0 = self.working_memory@;
        touch_working(&mut self.working_memory, from, now);
        let ghost wm1 = self.working_memory@;
        touch_working(&mut self.working_memory, to, now);
        proof {
            let wm2 = self.working_memory@;
            if from != to {
                assert(wm_has(wm1, from) && wm_time(wm1, from) == now);
                assert(wm_has(wm2, from));
                assert(wm_time(wm2, from) == now);
            }
            assert forall|x: ConceptId| x != from && x != to implies #[trigger] wm_has(wm2, x)
                == wm_has(wm0, x) && (wm_has(wm0, x) ==> wm_time(wm2, x) == wm_time(wm0, x)) by {
                assert(wm_has(wm1, x) == wm_has(wm0, x));
                assert(wm_has(wm2, x) == wm_has(wm1, x));
                if wm_has(wm0, x) {
                    assert(wm_time(wm1, x) == wm_time(wm0, x));
                    assert(wm_time(wm2, x) == wm_time(wm1, x));
                }
            }
        }
        Ok(())
    }

    /// `associate(a, b)` then `associate(b, a)`; the order is fixed.
    pub fn associate_bidirectional(&mut self, a: ConceptId, b: ConceptId, now: i64) -> (r: Result<
        (),
        MemoryError,
    >)
        requires
            old(self).wf(),
        ensures
            final(self).wf(),
            final(self).concepts@ == old(self).concepts@,
            !(has_concept_id(old(self).concepts@, a) && has_concept_id(old(self).concepts@, b))
                ==> r == Err::<(), MemoryError>(MemoryError::UnknownConcept) && *final(self)
                == *old(self),
            has_concept_id(old(self).concepts@, a) && has_concept_id(old(self).concepts@, b) ==> r
                == Ok::<(), MemoryError>(()) && (exists|mid: MemoryGraph|
                #[trigger] mid.wf() && associate_effect(
                    *old(self),
                    mid,
                    a,
                    b,
                    now,
                    Ok::<(), MemoryError>(()),
                ) && associate_effect(
                    mid,
                    *final(self),
                    b,
                    a,
                    now,
                    Ok::<(), MemoryError>(()),
                )) && has_edge_key(
                final(self).short_term_edges@.add(final(self).long_term_edges@),
                a,
                b,
            ) && has_edge_key(
                final(self).short_term_edges@.add(final(self).long_term_edges@),
                b,
                a,
            ),
    {
        let ghost g0 = *self;
        let r1 = self.associate(a, b, now);
        if r1.is_err() {
            proof {
                assert(*self == g0);
            }
            return r1;
        }
        let ghost g1 = *self;
        let r2 = self.associate(b, a, now);
        proof {
            if has_concept_id(g0.concepts@, a) && has_concept_id(g0.concepts@, b) {
                assert(g1.wf() && associate_effect(g0, g1, a, b, now, Ok::<(), MemoryError>(()))
                    && associate_effect(g1, *self, b, a, now, Ok::<(), MemoryError>(())));
                let st1 = g1.short_term_edges@;
                let lt1 = g1.long_term_edges@;
                let st2 = self.short_term_edges@;
                let lt2 = self.long_term_edges@;
                assert(has_edge_key(st1, a, b) || has_edge_key(lt1, a, b)) by {
                    if !has_edge_key(g0.short_term_edges@, a, b) && !has_edge_key(
                        g0.long_term_edges@,
                        a,
                        b,
                    ) {
                        assert(st1[g0.short_term_edges@.len() as int].from == a);
                    }
                }
                assert(has_edge_key(st2, b, a) || has_edge_key(lt2, b, a)) by {
                    if !has_edge_key(st1, b, a) && !has_edge_key(lt1, b, a) {
                        assert(st2[st1.len() as int].from == b);
                    }
                }
                assert(has_edge_key(st2, a, b) || has_edge_key(lt2, a, b)) by {
                    if has_edge_key(st1, b, a) {
                        if a == b {
                        } else {
                            assert(edges_same_except(st1, st2, b, a));
                        }
                    } else if has_edge_key(lt1, b, a) {
                        if a == b {
                        } else {
                            assert(edges_same_except(lt1, lt2, b, a));
                            assert(st2 == st1);
                        }
                    } else {
                        if has_edge_key(st1, a, b) {
                            let i = edge_index_of(st1, a, b);
                            assert(st2[i] == st1[i]);
                        }
                    }
                }
                lemma_key_in_union(st2, lt2, a, b);
                lemma_key_in_union(st2, lt2, b, a);
            }
        }
        r2
    }

    /// Access a concept: update its access fields, refresh working memory,
    /// and strengthen every incident edge in both zones by the learning rate.
    /// Fails with `UnknownConcept`, changing nothing, when absent.
    pub fn access_concept(&mut self, id: ConceptId, now: i64) -> (r: Result<(), MemoryError>)
        requires
            old(self).wf(),
        ensures
            final(self).wf(),
            final(self).config == old(self).config,
            final(self).last_consolidation == old(self).last_consolidation,
            !has_concept_id(old(self).concepts@, id) ==> r == Err::<(), MemoryError>(
                MemoryError::UnknownConcept,
            ) && *final(self) == *old(self),
            final(self).concepts@.len() == old(self).concepts@.len(),
            has_concept_id(old(self).concepts@, id) ==> {
                &&& r == Ok::<(), MemoryError>(())
                &&& has_concept_id(final(self).concepts@, id)
                &&& concept_eq(
                    concept_lookup(final(self).concepts@, id),
                    accessed_concept(concept_lookup(old(self).concepts@, id), now),
                )
                &&& concepts_same_except(old(self).concepts@, final(self).concepts@, id)
                &&& wm_has(final(self).working_memory@, id)
                &&& wm_time(final(self).working_memory@, id) == now
                &&& wm_same_except(old(self).working_memory@, final(self).working_memory@, id)
                &&& final(self).short_term_edges@ == strengthen_incident(
                    old(self).short_term_edges@,
                    id,
                    old(self).config.learning_rate,
                    now,
                )
                &&& final(self).long_term_edges@ == strengthen_incident(
                    old(self).long_term_edges@,
                    id,
                    old(self).config.learning_rate,
                    now,
                )
            },
    {
        let ghost g0 = *self;
        let idx = match find_concept(&self.concepts, id) {
            Some(i) => i,
            None => {
                return Err(MemoryError::UnknownConcept);
            },
        };
        proof {
            lemma_concept_index(g0.concepts@, id, idx as int);
        }
        let c = &mut self.concepts[idx];
        c.access(now);
        proof {
            let s0 = g0.concepts@;
            let s1 = self.concepts@;
            assert(s1 == s0.update(idx as int, accessed_concept(s0[idx as int], now)));
            assert forall|a: int, b: int| 0 <= a < b < s1.len() implies s1[a].id != s1[b].id by {
                assert(s1[a].id == s0[a].id && s1[b].id == s0[b].id);
            }
            lemma_concept_index(s1, id, idx as int);
            assert forall|x: ConceptId| x != id implies #[trigger] has_concept_id(s1, x)
                == has_concept_id(s0, x) && (has_concept_id(s0, x) ==> concept_eq(
                concept_lookup(s1, x),
                concept_lookup(s0, x),
            )) by {
                if has_concept_id(s0, x) {
                    let j = concept_index_of(s0, x);
                    assert(s1[j].id == x);
                    lemma_concept_index(s1, x, j);
                    lemma_concept_index(s0, x, j);
                }
                if has_concept_id(s1, x) {
                    let j = concept_index_of(s1, x);
                    assert(s0[j].id == x);
                }
            }
            assert forall|x: ConceptId| has_concept_id(g0.concepts@, x) implies has_concept_id(
                self.concepts@,
                x,
            ) by {
                let j = concept_index_of(g0.concepts@, x);
                assert(self.concepts@[j].id == x);
            }
        }
        touch_working(&mut self.working_memory, id, now);
        let rate = self.config.learning_rate;
        strengthen_incident_edges(&mut self.short_term_edges, id, rate, now);
        strengthen_incident_edges(&mut self.long_term_edges, id, rate, now);
        proof {
            assert forall|k: int| 0 <= k < self.short_term_edges@.len() implies has_concept_id(
                self.concepts@,
                (#[trigger] self.short_term_edges@[k]).from,
            ) && has_concept_id(self.concepts@, self.short_term_edges@[k].to) by {
                assert(self.short_term_edges@[k].from == g0.short_term_edges@[k].from);
                assert(self.short_term_edges@[k].to == g0.short_term_edges@[k].to);
                assert(has_concept_id(g0.concepts@, g0.short_term_edges@[k].from));
                assert(has_concept_id(g0.concepts@, g0.short_term_edges@[k].to));
            }
            assert forall|k: int| 0 <= k < self.long_term_edges@.len() implies has_concept_id(
                self.concepts@,
                (#[trigger] self.long_term_edges@[k]).from,
            ) && has_concept_id(self.concepts@, self.long_term_edges@[k].to) by {
                assert(self.long_term_edges@[k].from == g0.long_term_edges@[k].from);
                assert(self.long_term_edges@[k].to == g0.long_term_edges@[k].to);
                assert(has_concept_id(g0.concepts@, g0.long_term_edges@[k].from));
                assert(has_concept_id(g0.concepts@, g0.long_term_edges@[k].to));
            }
            assert forall|k: int| 0 <= k < self.short_term_edges@.len() implies !has_edge_key(
                self.long_term_edges@,
                (#[trigger] self.short_term_edges@[k]).from,
                self.short_term_edges@[k].to,
            ) by {
                assert(self.short_term_edges@[k].from == g0.short_term_edges@[k].from);
                assert(self.short_term_edges@[k].to == g0.short_term_edges@[k].to);
                assert(!has_edge_key(
                    g0.long_term_edges@,
                    g0.short_term_edges@[k].from,
                    g0.short_term_edges@[k].to,
                ));
                if has_edge_key(
                    self.long_term_edges@,
                    g0.short_term_edges@[k].from,
                    g0.short_term_edges@[k].to,
                ) {
                    let j = edge_index_of(
                        self.long_term_edges@,
                        g0.short_term_edges@[k].from,
                        g0.short_term_edges@[k].to,
                    );
                    assert(g0.long_term_edges@[j].from == self.long_term_edges@[j].from);
                    assert(g0.long_term_edges@[j].to == self.long_term_edges@[j].to);
                }
            }
        }
        Ok(())
    }

    /// Remove a concept, its working-memory entry, and every incident edge in
    /// both zones.  Returns whether the concept was present.
    pub fn remove_concept(&mut self, id: ConceptId) -> (r: bool)
        requires
            old(self).wf(),
        ensures
            final(self).wf(),
            r == has_concept_id(old(self).concepts@, id),
            !has_concept_id(final(self).concepts@, id),
            !wm_has(final(self).working_memory@, id),
            final(self).concepts@ == old(self).concepts@.filter(
                |c: Concept| c.id != id,
            ),
            final(self).short_term_edges@ == old(self).short_term_edges@.filter(
                |e: SynapticEdge| !touches(e, id),
            ),
            final(self).long_term_edges@ == old(self).long_term_edges@.filter(
                |e: SynapticEdge| !touches(e, id),
            ),
            final(self).working_memory@ == old(self).working_memory@.filter(
                |p: (ConceptId, i64)| p.0 != id,
            ),
            forall|k: int|
                0 <= k < final(self).short_term_edges@.len() ==> !touches(
                    #[trigger] final(self).short_term_edges@[k],
                    id,
                ),
            forall|k: int|
                0 <= k < final(self).long_term_edges@.len() ==> !touches(
                    #[trigger] final(self).long_term_edges@[k],
                    id,
                ),
            final(self).config == old(self).config,
            final(self).last_consolidation == old(self).last_consolidation,
    {
        let ghost g0 = *self;
        let present = find_concept(&self.concepts, id).is_some();
        let mut pending: Vec<Concept> = Vec::new();
        core::mem::swap(&mut pending, &mut self.concepts);
        let ghost orig = pending@;
        let mut concepts: Vec<Concept> = Vec::new();
        while pending.len() > 0
            invariant
                pending@.len() <= orig.len(),
                pending@ =~= orig.skip(orig.len() - pending@.len()),
                concepts@ =~= orig.take(orig.len() - pending@.len()).filter(
                    |c: Concept| c.id != id,
                ),
            decreases pending@.len(),
        {
            let ghost n = orig.len() - pending@.len();
            let c = pending.remove(0);
            proof {
                assert(c == orig[n as int]);
                assert(pending@ =~= orig.skip(n as int + 1));
                lemma_take_filter_step(orig, |c: Concept| c.id != id, n as int);
            }
            if !(c.id == id) {
                concepts.push(c);
            }
            proof {
                assert(concepts@ =~= orig.take(n as int + 1).filter(|c: Concept| c.id != id));
            }
        }
        proof {
            assert(orig.take(orig.len() as int) =~= orig);
        }
        let mut st: Vec<SynapticEdge> = Vec::new();
        let mut j: usize = 0;
        while j < self.short_term_edges.len()
            invariant
                j <= self.short_term_edges@.len(),
                self.short_term_edges@ == g0.short_term_edges@,
                st@ =~= self.short_term_edges@.take(j as int).filter(
                    |e: SynapticEdge| !touches(e, id),
                ),
            decreases self.short_term_edges@.len() - j,
        {
            proof {
                lemma_take_filter_step(
                    self.short_term_edges@,
                    |e: SynapticEdge| !touches(e, id),
                    j as int,
                );
            }
            let e = self.short_term_edges[j];
            if !(e.from == id || e.to == id) {
                st.push(e);
            }
            j = j + 1;
        }
        proof {
            assert(self.short_term_edges@.take(self.short_term_edges@.len() as int)
                =~= self.short_term_edges@);
        }
        let mut lt: Vec<SynapticEdge> = Vec::new();
        let mut k: usize = 0;
        while k < self.long_term_edges.len()
            invariant
                k <= self.long_term_edges@.len(),
                self.long_term_edges@ == g0.long_term_edges@,
                lt@ =~= self.long_term_edges@.take(k as int).filter(
                    |e: SynapticEdge| !touches(e, id),
                ),
            decreases self.long_term_edges@.len() - k,
        {
            proof {
                lemma_take_filter_step(
                    self.long_term_edges@,
                    |e: SynapticEdge| !touches(e, id),
                    k as int,
                );
            }
            let e = self.long_term_edges[k];
            if !(e.from == id || e.to == id) {
                lt.push(e);
            }
            k = k + 1;
        }
        proof {
            assert(self.long_term_edges@.take(self.long_term_edges@.len() as int)
                =~= self.long_term_edges@);
        }
        let mut wm: Vec<(ConceptId, i64)> = Vec::new();
        let mut m: usize = 0;
        while m < self.working_memory.len()
            invariant
                m <= self.working_memory@.len(),
                self.working_memory@ == g0.working_memory@,
                wm@ =~= self.working_memory@.take(m as int).filter(
                    |p: (ConceptId, i64)| p.0 != id,
                ),
            decreases self.working_memory@.len() - m,
        {
            proof {
                lemma_take_filter_step(
                    self.working_memory@,
                    |p: (ConceptId, i64)| p.0 != id,
                    m as int,
                );
            }
            let p = self.working_memory[m];
            if !(p.0 == id) {
                wm.push(p);
            }
            m = m + 1;
        }
        proof {
            assert(self.working_memory@.take(self.working_memory@.len() as int)
                =~= self.working_memory@);
        }
        self.concepts = concepts;
        self.short_term_edges = st;
        self.long_term_edges = lt;
        self.working_memory = wm;
        proof {
            lemma_remove_concept_wf(g0, *self, id);
        }
        present
    }

    /// Whether the consolidation interval has elapsed since the last run.
    pub fn should_consolidate(&self, now: i64) -> (r: bool)
        ensures
            r == ((now as int) - (self.last_consolidation as int) > (
            self.config.consolidation_interval_hours as int) * 3600),
    {
        let elapsed: i128 = (now as i128) - (self.last_consolidation as i128);
        elapsed > (self.config.consolidation_interval_hours as i128) * 3600
    }
}

} // verus!
