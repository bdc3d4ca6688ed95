//! Forgetting: weak-edge pruning, Ebbinghaus decay, isolation and disuse
//! removal, aggressive cleanup, targeted forgetting, and interference.

use vstd::prelude::*;
use vstd::string::StringSliceAdditionalSpecFns;
use crate::types::{Concept, ConceptId, SynapticEdge, decayed_edge, lemma_weaken_bounds, UNIT};
use crate::graph::{MemoryGraph, concept_lookup, concept_index_of, has_concept_id,
    concept_ids_unique, edge_keys_unique, edges_wf, has_edge_key, edge_index_of, wm_keys_unique,
    lemma_filter_keys_distinct, lemma_take_filter_step, lemma_concept_index, touches,
    find_concept};
use crate::consolidation::incidence;

verus! {

/// Counts returned by a forgetting cycle.
#[derive(Debug, Clone, Copy, PartialEq, Eq, Structural)]
pub struct ForgettingStats {
    pub concepts_forgotten: usize,
    pub connections_pruned: usize,
    pub weak_connections_decayed: usize,
    pub isolated_concepts_removed: usize,
}

/// Forgetting configuration.  The weak-connection threshold is a fixed-point
/// fraction of [`UNIT`].
#[derive(Debug, Clone, Copy, PartialEq, Eq, Structural)]
pub struct ForgettingConfig {
    /// Minimum endpoint incidences to keep a concept.
    pub concept_isolation_threshold: usize,
    /// Days before unused concepts are forgotten.
    pub unused_concept_days: i64,
    /// Weight threshold below which connections are pruned.
    pub weak_connection_threshold: u64,
    /// More aggressive pruning.
    pub aggressive_forgetting: bool,
}

impl Default for ForgettingConfig {
    /// Keep every connected concept, forget after thirty unused days, prune
    /// below `0.05`, no aggressive pass.
    fn default() -> (r: Self)
        ensures
            r.concept_isolation_threshold == 1,
            r.unused_concept_days == 30,
            r.weak_connection_threshold == 50_000,
            r.aggressive_forgetting == false,
    {
        ForgettingConfig {
            concept_isolation_threshold: 1,
            unused_concept_days: 30,
            weak_connection_threshold: 50_000,
            aggressive_forgetting: false,
        }
    }
}

/// Filtering with pointwise-equivalent predicates gives the same result.
pub proof fn lemma_filter_equiv<T>(s: Seq<T>, p: spec_fn(T) -> bool, q: spec_fn(T) -> bool)
    requires
        forall|i: int| 0 <= i < s.len() ==> p(#[trigger] s[i]) == q(s[i]),
    ensures
        s.filter(p) == s.filter(q),
    decreases s.len(),
{
    reveal(Seq::filter);
    if s.len() > 0 {
        let d = s.drop_last();
        assert(forall|i: int| 0 <= i < d.len() ==> p(#[trigger] d[i]) == q(d[i])) by {
            assert(forall|i: int| 0 <= i < d.len() ==> d[i] == s[i]);
        }
        lemma_filter_equiv(d, p, q);
        assert(p(s.last()) == q(s.last()));
    }
}

/// Removing every concept that a predicate marks dead, together with its
/// incident edges and working-memory entry, keeps every graph invariant.
pub proof fn lemma_remove_by_pred_wf(g0: MemoryGraph, g1: MemoryGraph, dead: spec_fn(ConceptId) -> bool)
    requires
        g0.wf(),
        g1.concepts@ == g0.concepts@.filter(|c: Concept| !dead(c.id)),
        g1.short_term_edges@ == g0.short_term_edges@.filter(
            |e: SynapticEdge| !dead(e.from) && !dead(e.to),
        ),
        g1.long_term_edges@ == g0.long_term_edges@.filter(
            |e: SynapticEdge| !dead(e.from) && !dead(e.to),
        ),
        g1.working_memory@ == g0.working_memory@.filter(|p: (ConceptId, i64)| !dead(p.0)),
        g1.config == g0.config,
    ensures
        g1.wf(),
        forall|x: ConceptId| dead(x) ==> !has_concept_id(g1.concepts@, x),
        forall|x: ConceptId| dead(x) ==> !crate::graph::wm_has(g1.working_memory@, x),
        forall|k: int|
            0 <= k < g1.short_term_edges@.len() ==> !dead(
                (#[trigger] g1.short_term_edges@[k]).from,
            ) && !dead(g1.short_term_edges@[k].to),
        forall|k: int|
            0 <= k < g1.long_term_edges@.len() ==> !dead((#[trigger] g1.long_term_edges@[k]).from)
                && !dead(g1.long_term_edges@[k].to),
{
    broadcast use vstd::seq_lib::group_filter_ensures;

    let cpred = |c: Concept| !dead(c.id);
    let epred = |e: SynapticEdge| !dead(e.from) && !dead(e.to);
    let wpred = |p: (ConceptId, i64)| !dead(p.0);
    let c0 = g0.concepts@;
    let c1 = g1.concepts@;
    let st0 = g0.short_term_edges@;
    let st1 = g1.short_term_edges@;
    let lt0 = g0.long_term_edges@;
    let lt1 = g1.long_term_edges@;
    lemma_filter_keys_distinct(c0, cpred, |c: Concept| c.id);
    lemma_filter_keys_distinct(st0, epred, |e: SynapticEdge| (e.from, e.to));
    lemma_filter_keys_distinct(lt0, epred, |e: SynapticEdge| (e.from, e.to));
    lemma_filter_keys_distinct(g0.working_memory@, wpred, |p: (ConceptId, i64)| p.0);
    assert forall|a: int, b: int| 0 <= a < b < c1.len() implies c1[a].id != c1[b].id by {
        let key = |c: Concept| c.id;
        assert(key(c1[a]) != key(c1[b]));
    }
    assert forall|a: int, b: int| 0 <= a < b < st1.len() implies !(st1[a].from == st1[b].from
        && st1[a].to == st1[b].to) by {
        let key = |e: SynapticEdge| (e.from, e.to);
        assert(key(st1[a]) != key(st1[b]));
    }
    assert forall|a: int, b: int| 0 <= a < b < lt1.len() implies !(lt1[a].from == lt1[b].from
        && lt1[a].to == lt1[b].to) by {
        let key = |e: SynapticEdge| (e.from, e.to);
        assert(key(lt1[a]) != key(lt1[b]));
    }
    assert forall|a: int, b: int| 0 <= a < b < g1.working_memory@.len() implies
        g1.working_memory@[a].0 != g1.working_memory@[b].0 by {
        let key = |p: (ConceptId, i64)| p.0;
        assert(key(g1.working_memory@[a]) != key(g1.working_memory@[b]));
    }
    assert forall|x: ConceptId| dead(x) implies !has_concept_id(c1, x) by {
        if has_concept_id(c1, x) {
            let i = concept_index_of(c1, x);
            assert(cpred(c1[i]));
        }
    }
    assert forall|x: ConceptId| dead(x) implies !crate::graph::wm_has(g1.working_memory@, x) by {
        if crate::graph::wm_has(g1.working_memory@, x) {
            let i = crate::graph::wm_index_of(g1.working_memory@, x);
            assert(wpred(g1.working_memory@[i]));
        }
    }
    assert forall|k: int| 0 <= k < st1.len() implies (#[trigger] st1[k]).wf() && !dead(st1[k].from)
        && !dead(st1[k].to) && has_concept_id(c1, st1[k].from) && has_concept_id(
        c1,
        st1[k].to,
    ) by {
        assert(epred(st1[k]));
        assert(st0.contains(st1[k]));
        let j = choose|j: int| 0 <= j < st0.len() && st0[j] == st1[k];
        assert(st0[j].wf());
        lemma_endpoint_survives_pred(st1[k].from, c0, c1, dead);
        lemma_endpoint_survives_pred(st1[k].to, c0, c1, dead);
    }
    assert forall|k: int| 0 <= k < lt1.len() implies (#[trigger] lt1[k]).wf() && !dead(lt1[k].from)
        && !dead(lt1[k].to) && has_concept_id(c1, lt1[k].from) && has_concept_id(
        c1,
        lt1[k].to,
    ) by {
        assert(epred(lt1[k]));
        assert(lt0.contains(lt1[k]));
        let j = choose|j: int| 0 <= j < lt0.len() && lt0[j] == lt1[k];
        assert(lt0[j].wf());
        lemma_endpoint_survives_pred(lt1[k].from, c0, c1, dead);
        lemma_endpoint_survives_pred(lt1[k].to, c0, c1, dead);
    }
    assert forall|k: int| 0 <= k < st1.len() implies !has_edge_key(
        lt1,
        (#[trigger] st1[k]).from,
        st1[k].to,
    ) by {
        assert(st0.contains(st1[k]));
        let j = choose|j: int| 0 <= j < st0.len() && st0[j] == st1[k];
        assert(!has_edge_key(lt0, st0[j].from, st0[j].to));
        if has_edge_key(lt1, st1[k].from, st1[k].to) {
            let m = edge_index_of(lt1, st1[k].from, st1[k].to);
            assert(lt0.contains(lt1[m]));
            let n = choose|n: int| 0 <= n < lt0.len() && lt0[n] == lt1[m];
            assert(lt0[n].from == st0[j].from && lt0[n].to == st0[j].to);
        }
    }
}

/// A surviving endpoint that existed before still exists after filtering the
/// concept table by liveness.
pub proof fn lemma_endpoint_survives_pred(
    x: ConceptId,
    c0: Seq<Concept>,
    c1: Seq<Concept>,
    dead: spec_fn(ConceptId) -> bool,
)
    requires
        !dead(x),
        has_concept_id(c0, x),
        c1 == c0.filter(|c: Concept| !dead(c.id)),
    ensures
        has_concept_id(c1, x),
{
    broadcast use vstd::seq_lib::group_filter_ensures;

    let cpred = |c: Concept| !dead(c.id);
    let i = concept_index_of(c0, x);
    assert(0 <= i < c0.len() && c0[i].id == x);
    assert(cpred(c0[i]));
    assert(c1.contains(c0[i]));
    let j = choose|j: int| 0 <= j < c1.len() && c1[j] == c0[i];
    assert(c1[j].id == x);
}

/// Saturating addition on table sizes.
pub open spec fn sat_add_usize(a: int, b: int) -> int {
    if a + b <= usize::MAX as int {
        a + b
    } else {
        usize::MAX as int
    }
}

/// The quadratic rational approximation of `exp(-x)` used by the Ebbinghaus
/// curve, on fixed-point fractions of [`UNIT`]: `1 / (1 + x + x^2 / 2)`,
/// cut off to `0` for large `x`.
pub open spec fn exp_neg_approx(x: int) -> int {
    if x < 0 {
        1_000_000int
    } else if x >= 20_000_000 {
        0int
    } else {
        1_000_000_000_000int / (1_000_000int + x + x * x / 2_000_000int)
    }
}

/// Ebbinghaus retention after `delta` seconds for weight `w` on a horizon of
/// `scale` seconds (thirty weight-scaled days short-term, one hundred and
/// eighty long-term): `exp(-delta / (scale * w))` in fixed point.
pub open spec fn ebb_retention(delta: int, w: int, scale: int) -> int {
    if delta <= 0 {
        1_000_000int
    } else if w <= 0 {
        0int
    } else {
        exp_neg_approx(delta * 1_000_000_000_000int / (scale * w))
    }
}

/// The short-term forgetting-curve decay amount: `1 - retention`.
pub open spec fn ebb_amount(e: SynapticEdge, now: i64, long_term: bool) -> u64 {
    if long_term {
        (((1_000_000 - ebb_retention(
            (now as int) - (e.last_accessed as int),
            e.weight.0 as int,
            15_552_000,
        )) / 10) as u64)
    } else {
        ((1_000_000 - ebb_retention(
            (now as int) - (e.last_accessed as int),
            e.weight.0 as int,
            2_592_000,
        )) as u64)
    }
}

/// One zone after the forgetting curve: each edge with a positive decay
/// amount is decayed by it.
pub open spec fn ebb_pass(s: Seq<SynapticEdge>, now: i64, long_term: bool) -> Seq<SynapticEdge> {
    Seq::new(
        s.len(),
        |i: int|
            if ebb_amount(s[i], now, long_term) > 0 {
                decayed_edge(s[i], ebb_amount(s[i], now, long_term))
            } else {
                s[i]
            },
    )
}

/// How many edges of the zone receive a positive decay amount.
pub open spec fn ebb_count(s: Seq<SynapticEdge>, now: i64, long_term: bool) -> int
    decreases s.len(),
{
    if s.len() == 0 {
        0
    } else {
        ebb_count(s.drop_last(), now, long_term) + if ebb_amount(s.last(), now, long_term) > 0 {
            1int
        } else {
            0int
        }
    }
}

/// The forgetting-curve decay amount for one edge.
pub fn ebb_amount_exec(e: &SynapticEdge, now: i64, long_term: bool) -> (r: u64)
    requires
        e.wf(),
    ensures
        r == ebb_amount(*e, now, long_term),
        r <= UNIT,
{
    let delta_wide: i128 = (now as i128) - (e.last_accessed as i128);
    let scale: u128 = if long_term {
        15_552_000
    } else {
        2_592_000
    };
    let retention: u64 = if delta_wide <= 0 {
        UNIT
    } else if e.weight.value() == 0 {
        0
    } else {
        proof {
            assert((delta_wide as u128) < 18_446_744_073_709_551_616u128);
            assert((delta_wide as u128) * 1_000_000_000_000 < 18_446_744_073_709_551_616u128
                * 1_000_000_000_001) by (nonlinear_arith)
                requires
                    (delta_wide as u128) < 18_446_744_073_709_551_616u128,
            ;
        }
        let num: u128 = (delta_wide as u128) * 1_000_000_000_000;
        let den: u128 = scale * (e.weight.value() as u128);
        let x: u128 = num / den;
        if x >= 20_000_000 {
            0
        } else {
            let x64: u64 = x as u64;
            proof {
                assert(x64 < 20_000_000);
                assert(x64 * x64 < 20_000_000u64 * 20_000_000) by (nonlinear_arith)
                    requires
                        x64 < 20_000_000,
                ;
            }
            let d: u64 = 1_000_000 + x64 + x64 * x64 / 2_000_000;
            proof {
                assert(1_000_000_000_000u64 / d <= 1_000_000) by (nonlinear_arith)
                    requires
                        d >= 1_000_000,
                ;
            }
            1_000_000_000_000 / d
        }
    };
    proof {
        assert(retention <= UNIT);
    }
    if long_term {
        (UNIT - retention) / 10
    } else {
        UNIT - retention
    }
}

/// Apply the forgetting curve to one zone in place; count the decayed edges.
pub fn ebb_pass_exec(v: &mut Vec<SynapticEdge>, now: i64, long_term: bool) -> (r: usize)
    requires
        edges_wf(old(v)@),
        edge_keys_unique(old(v)@),
    ensures
        final(v)@ == ebb_pass(old(v)@, now, long_term),
        final(v)@.len() == old(v)@.len(),
        edges_wf(final(v)@),
        edge_keys_unique(final(v)@),
        forall|k: int|
            0 <= k < final(v)@.len() ==> (#[trigger] final(v)@[k]).from == old(v)@[k].from
                && final(v)@[k].to == old(v)@[k].to,
        r == ebb_count(old(v)@, now, long_term),
{
    let ghost s0 = v@;
    let mut count: usize = 0;
    let mut i: usize = 0;
    while i < v.len()
        invariant
            i <= s0.len(),
            v@.len() == s0.len(),
            edges_wf(s0),
            count == ebb_count(s0.take(i as int), now, long_term),
            count <= i,
            forall|j: int| 0 <= j < i ==> v@[j] == ebb_pass(s0, now, long_term)[j],
            forall|j: int| i <= j < s0.len() ==> v@[j] == s0[j],
        decreases s0.len() - i,
    {
        let e = v[i];
        proof {
            assert(e == s0[i as int]);
            assert(s0[i as int].wf());
            let t = s0.take(i as int + 1);
            assert(t.drop_last() =~= s0.take(i as int));
            assert(t.last() == s0[i as int]);
        }
        let amount = ebb_amount_exec(&e, now, long_term);
        if amount > 0 {
            let mut e2 = e;
            e2.decay(amount);
            v[i] = e2;
            count = count + 1;
        }
        i = i + 1;
    }
    proof {
        assert(s0.take(s0.len() as int) =~= s0);
        assert(v@ =~= ebb_pass(s0, now, long_term));
        assert forall|k: int| 0 <= k < v@.len() implies (#[trigger] v@[k]).wf() && v@[k].from
            == s0[k].from && v@[k].to == s0[k].to by {
            if ebb_amount(s0[k], now, long_term) > 0 {
                lemma_weaken_bounds(s0[k].weight.0, ebb_amount(s0[k], now, long_term));
            }
        }
        assert forall|a: int, b: int| 0 <= a < b < v@.len() implies !(v@[a].from == v@[b].from
            && v@[a].to == v@[b].to) by {
            assert(v@[a].from == s0[a].from && v@[a].to == s0[a].to);
            assert(v@[b].from == s0[b].from && v@[b].to == s0[b].to);
        }
    }
    count
}

impl MemoryGraph {
    /// Prune connections below the strength threshold: short-term edges below
    /// it, long-term edges below half of it.  Returns how many were removed.
    pub fn prune_weak_connections(&mut self, threshold: u64) -> (r: usize)
        requires
            old(self).wf(),
        ensures
            final(self).wf(),
            final(self).short_term_edges@ == old(self).short_term_edges@.filter(
                |e: SynapticEdge| e.weight.0 >= threshold,
            ),
            final(self).long_term_edges@ == old(self).long_term_edges@.filter(
                |e: SynapticEdge| e.weight.0 >= threshold / 2,
            ),
            r == sat_add_usize(
                old(self).short_term_edges@.len() - final(self).short_term_edges@.len(),
                old(self).long_term_edges@.len() - final(self).long_term_edges@.len(),
            ),
            final(self).concepts@ == old(self).concepts@,
            final(self).working_memory@ == old(self).working_memory@,
            final(self).config == old(self).config,
            final(self).last_consolidation == old(self).last_consolidation,
    {
        let ghost g0 = *self;
        let ghost st0 = self.short_term_edges@;
        let ghost lt0 = self.long_term_edges@;
        let half = threshold / 2;
        let mut st: Vec<SynapticEdge> = Vec::new();
        let mut i: usize = 0;
        while i < self.short_term_edges.len()
            invariant
                i <= st0.len(),
                self.short_term_edges@ == st0,
                st@ == st0.take(i as int).filter(|e: SynapticEdge| e.weight.0 >= threshold),
            decreases st0.len() - i,
        {
            proof {
                lemma_take_filter_step(st0, |e: SynapticEdge| e.weight.0 >= threshold, i as int);
            }
            let e = self.short_term_edges[i];
            if e.weight.value() >= threshold {
                st.push(e);
            }
            i = i + 1;
        }
        let mut lt: Vec<SynapticEdge> = Vec::new();
        let mut j: usize = 0;
        while j < self.long_term_edges.len()
            invariant
                j <= lt0.len(),
                self.long_term_edges@ == lt0,
                half == threshold / 2,
                lt@ == lt0.take(j as int).filter(|e: SynapticEdge| e.weight.0 >= threshold / 2),
            decreases lt0.len() - j,
        {
            proof {
                lemma_take_filter_step(lt0, |e: SynapticEdge| e.weight.0 >= threshold / 2, j as int);
            }
            let e = self.long_term_edges[j];
            if e.weight.value() >= half {
                lt.push(e);
            }
            j = j + 1;
        }
        proof {
            assert(st0.take(st0.len() as int) =~= st0);
            assert(lt0.take(lt0.len() as int) =~= lt0);
            broadcast use vstd::seq_lib::group_filter_ensures;

            assert(st@.len() <= st0.len());
            assert(lt@.len() <= lt0.len());
        }
        let a = self.short_term_edges.len() - st.len();
        let b = self.long_term_edges.len() - lt.len();
        let pruned = if a <= usize::MAX - b {
            a + b
        } else {
            usize::MAX
        };
        self.short_term_edges = st;
        self.long_term_edges = lt;
        proof {
            lemma_prune_wf(g0, *self, threshold);
        }
        pruned
    }

    /// Ebbinghaus-style forgetting curves: each short-term edge decays by
    /// `1 - exp(-days / (30 w))`; each long-term edge by a tenth of the same
    /// with a one-hundred-and-eighty-day horizon.  Returns how many edges
    /// were decayed.
    pub fn apply_forgetting_curves(&mut self, now: i64) -> (r: usize)
        requires
            old(self).wf(),
        ensures
            final(self).wf(),
            final(self).short_term_edges@ == ebb_pass(old(self).short_term_edges@, now, false),
            final(self).long_term_edges@ == ebb_pass(old(self).long_term_edges@, now, true),
            r == sat_add_usize(
                ebb_count(old(self).short_term_edges@, now, false),
                ebb_count(old(self).long_term_edges@, now, true),
            ),
            final(self).concepts@ == old(self).concepts@,
            final(self).working_memory@ == old(self).working_memory@,
            final(self).config == old(self).config,
            final(self).last_consolidation == old(self).last_consolidation,
    {
        let ghost g0 = *self;
        let c1 = ebb_pass_exec(&mut self.short_term_edges, now, false);
        let c2 = ebb_pass_exec(&mut self.long_term_edges, now, true);
        proof {
            crate::plasticity::lemma_zone_keys_equal_wf(g0, *self);
        }
        if c1 <= usize::MAX - c2 {
            c1 + c2
        } else {
            usize::MAX
        }
    }
}

/// Threshold pruning keeps the graph invariants: both zones only shrink.
pub proof fn lemma_prune_wf(g0: MemoryGraph, g1: MemoryGraph, threshold: u64)
    requires
        g0.wf(),
        g1.concepts@ == g0.concepts@,
        g1.working_memory@ == g0.working_memory@,
        g1.config == g0.config,
        g1.short_term_edges@ == g0.short_term_edges@.filter(
            |e: SynapticEdge| e.weight.0 >= threshold,
        ),
        g1.long_term_edges@ == g0.long_term_edges@.filter(
            |e: SynapticEdge| e.weight.0 >= threshold / 2,
        ),
    ensures
        g1.wf(),
{
    broadcast use vstd::seq_lib::group_filter_ensures;

    let stp = |e: SynapticEdge| e.weight.0 >= threshold;
    let ltp = |e: SynapticEdge| e.weight.0 >= threshold / 2;
    let key = |e: SynapticEdge| (e.from, e.to);
    let st0 = g0.short_term_edges@;
    let lt0 = g0.long_term_edges@;
    let st1 = g1.short_term_edges@;
    let lt1 = g1.long_term_edges@;
    lemma_filter_keys_distinct(st0, stp, key);
    lemma_filter_keys_distinct(lt0, ltp, key);
    assert forall|a: int, b: int| 0 <= a < b < st1.len() implies !(st1[a].from == st1[b].from
        && st1[a].to == st1[b].to) by {
        assert(key(st1[a]) != key(st1[b]));
    }
    assert forall|a: int, b: int| 0 <= a < b < lt1.len() implies !(lt1[a].from == lt1[b].from
        && lt1[a].to == lt1[b].to) by {
        assert(key(lt1[a]) != key(lt1[b]));
    }
    assert forall|k: int| 0 <= k < st1.len() implies (#[trigger] st1[k]).wf() && has_concept_id(
        g1.concepts@,
        st1[k].from,
    ) && has_concept_id(g1.concepts@, st1[k].to) && !has_edge_key(
        lt1,
        st1[k].from,
        st1[k].to,
    ) by {
        assert(st0.contains(st1[k]));
        let j = choose|j: int| 0 <= j < st0.len() && st0[j] == st1[k];
        assert(st0[j].wf());
        assert(has_concept_id(g0.concepts@, st0[j].from));
        assert(has_concept_id(g0.concepts@, st0[j].to));
        assert(!has_edge_key(lt0, st0[j].from, st0[j].to));
        if has_edge_key(lt1, st1[k].from, st1[k].to) {
            let m = edge_index_of(lt1, st1[k].from, st1[k].to);
            assert(lt0.contains(lt1[m]));
            let n = choose|n: int| 0 <= n < lt0.len() && lt0[n] == lt1[m];
            assert(lt0[n].from == st0[j].from && lt0[n].to == st0[j].to);
        }
    }
    assert forall|k: int| 0 <= k < lt1.len() implies (#[trigger] lt1[k]).wf() && has_concept_id(
        g1.concepts@,
        lt1[k].from,
    ) && has_concept_id(g1.concepts@, lt1[k].to) by {
        assert(lt0.contains(lt1[k]));
        let j = choose|j: int| 0 <= j < lt0.len() && lt0[j] == lt1[k];
        assert(lt0[j].wf());
        assert(has_concept_id(g0.concepts@, lt0[j].from));
        assert(has_concept_id(g0.concepts@, lt0[j].to));
    }
}

/// Whether a concept is isolated: fewer than `min` edge endpoints name it
/// across both zones.
pub open spec fn isolated_concept(
    st: Seq<SynapticEdge>,
    lt: Seq<SynapticEdge>,
    id: ConceptId,
    min: usize,
) -> bool {
    incidence(st, id) + incidence(lt, id) < min as int
}

/// Whether a concept is unused: not accessed for `days` days and accessed
/// fewer than three times overall.
pub open spec fn unused_concept(c: Concept, now: i64, days: i64) -> bool {
    (c.last_accessed as int) < (now as int) - (days as int) * 86400 && c.access_count < 3
}

/// The aggressive removal predicate: old, rarely accessed, short content.
pub open spec fn aggressive_old_concept(c: Concept, now: i64) -> bool {
    (c.last_accessed as int) < (now as int) - 1_209_600 && c.access_count < 5
        && (vstd::utf8::encode_utf8(c.content@).len() as usize) < 50
}

/// The aggressive pruning predicate on short-term edges: stale and weak.
pub open spec fn stale_weak_edge(e: SynapticEdge, now: i64) -> bool {
    (e.last_accessed as int) < (now as int) - 604_800 && e.weight.0 < 300_000
}

/// How many identifiers in the list name a concept that exists, counting
/// each distinct identifier once.
pub open spec fn fresh_hits(cs: Seq<Concept>, ids: Seq<ConceptId>, n: int) -> int
    decreases n,
{
    if n <= 0 {
        0
    } else {
        fresh_hits(cs, ids, n - 1) + if has_concept_id(cs, ids[n - 1]) && !ids.take(n - 1).contains(
            ids[n - 1],
        ) {
            1int
        } else {
            0int
        }
    }
}

/// Whether the list holds the identifier.
pub fn id_in_list(ids: &Vec<ConceptId>, x: ConceptId) -> (r: bool)
    ensures
        r == ids@.contains(x),
{
    let mut i: usize = 0;
    while i < ids.len()
        invariant
            i <= ids@.len(),
            forall|j: int| 0 <= j < i ==> ids@[j] != x,
        decreases ids@.len() - i,
    {
        if ids[i] == x {
            return true;
        }
        i = i + 1;
    }
    false
}

/// Whether the first `n` entries of the list hold the identifier.
pub fn id_in_prefix(ids: &Vec<ConceptId>, n: usize, x: ConceptId) -> (r: bool)
    requires
        n <= ids@.len(),
    ensures
        r == ids@.take(n as int).contains(x),
{
    let mut i: usize = 0;
    while i < n
        invariant
            i <= n <= ids@.len(),
            forall|j: int| 0 <= j < i ==> ids@[j] != x,
        decreases n - i,
    {
        if ids[i] == x {
            proof {
                assert(ids@.take(n as int)[i as int] == x);
            }
            return true;
        }
        i = i + 1;
    }
    proof {
        if ids@.take(n as int).contains(x) {
            let j = choose|j: int| 0 <= j < n && ids@.take(n as int)[j] == x;
            assert(ids@[j] == x);
        }
    }
    false
}

/// Count the endpoints among the edges of `v` that name `c`.
pub fn incidence_count(v: &Vec<SynapticEdge>, c: ConceptId) -> (r: u128)
    ensures
        r == incidence(v@, c),
{
    let mut count: u128 = 0;
    let mut i: usize = 0;
    while i < v.len()
        invariant
            i <= v@.len(),
            count == incidence(v@.take(i as int), c),
            count <= 2 * (i as int),
        decreases v@.len() - i,
    {
        let e = v[i];
        proof {
            let t = v@.take(i as int + 1);
            assert(t.drop_last() =~= v@.take(i as int));
            assert(t.last() == v@[i as int]);
        }
        if e.from == c {
            count = count + 1;
        }
        if e.to == c {
            count = count + 1;
        }
        i = i + 1;
    }
    proof {
        assert(v@.take(v@.len() as int) =~= v@);
    }
    count
}

impl MemoryGraph {
    /// Remove every concept named in the list, each with its working-memory
    /// entry and every incident edge in both zones.
    pub fn remove_concept_set(&mut self, ids: &Vec<ConceptId>)
        requires
            old(self).wf(),
        ensures
            final(self).wf(),
            final(self).concepts@ == old(self).concepts@.filter(
                |c: Concept| !ids@.contains(c.id),
            ),
            final(self).short_term_edges@ == old(self).short_term_edges@.filter(
                |e: SynapticEdge| !ids@.contains(e.from) && !ids@.contains(e.to),
            ),
            final(self).long_term_edges@ == old(self).long_term_edges@.filter(
                |e: SynapticEdge| !ids@.contains(e.from) && !ids@.contains(e.to),
            ),
            final(self).working_memory@ == old(self).working_memory@.filter(
                |p: (ConceptId, i64)| !ids@.contains(p.0),
            ),
            final(self).config == old(self).config,
            final(self).last_consolidation == old(self).last_consolidation,
    {
        let ghost g0 = *self;
        let mut pending: Vec<Concept> = Vec::new();
        core::mem::swap(&mut pending, &mut self.concepts);
        let ghost orig = pending@;
        let mut concepts: Vec<Concept> = Vec::new();
        while pending.len() > 0
            invariant
                pending@.len() <= orig.len(),
                pending@ =~= orig.skip(orig.len() - pending@.len()),
                concepts@ =~= orig.take(orig.len() - pending@.len()).filter(
                    |c: Concept| !ids@.contains(c.id),
                ),
            decreases pending@.len(),
        {
            let ghost n = orig.len() - pending@.len();
            let c = pending.remove(0);
            proof {
                assert(c == orig[n as int]);
                assert(pending@ =~= orig.skip(n as int + 1));
                lemma_take_filter_step(orig, |c: Concept| !ids@.contains(c.id), n as int);
            }
            if !id_in_list(ids, c.id) {
                concepts.push(c);
            }
            proof {
                assert(concepts@ =~= orig.take(n as int + 1).filter(
                    |c: Concept| !ids@.contains(c.id),
                ));
            }
        }
        proof {
            assert(orig.take(orig.len() as int) =~= orig);
        }
        self.concepts = concepts;
        let ghost st0 = self.short_term_edges@;
        let mut st: Vec<SynapticEdge> = Vec::new();
        let mut i: usize = 0;
        while i < self.short_term_edges.len()
            invariant
                i <= st0.len(),
                self.short_term_edges@ == st0,
                st@ =~= st0.take(i as int).filter(
                    |e: SynapticEdge| !ids@.contains(e.from) && !ids@.contains(e.to),
                ),
            decreases st0.len() - i,
        {
            proof {
                lemma_take_filter_step(
                    st0,
                    |e: SynapticEdge| !ids@.contains(e.from) && !ids@.contains(e.to),
                    i as int,
                );
            }
            let e = self.short_term_edges[i];
            let dead_from = id_in_list(ids, e.from);
            let dead_to = id_in_list(ids, e.to);
            if !dead_from && !dead_to {
                st.push(e);
            }
            i = i + 1;
        }
        proof {
            assert(st0.take(st0.len() as int) =~= st0);
        }
        self.short_term_edges = st;
        let ghost lt0 = self.long_term_edges@;
        let mut lt: Vec<SynapticEdge> = Vec::new();
        let mut j: usize = 0;
        while j < self.long_term_edges.len()
            invariant
                j <= lt0.len(),
                self.long_term_edges@ == lt0,
                lt@ =~= lt0.take(j as int).filter(
                    |e: SynapticEdge| !ids@.contains(e.from) && !ids@.contains(e.to),
                ),
            decreases lt0.len() - j,
        {
            proof {
                lemma_take_filter_step(
                    lt0,
                    |e: SynapticEdge| !ids@.contains(e.from) && !ids@.contains(e.to),
                    j as int,
                );
            }
            let e = self.long_term_edges[j];
            let dead_from = id_in_list(ids, e.from);
            let dead_to = id_in_list(ids, e.to);
            if !dead_from && !dead_to {
                lt.push(e);
            }
            j = j + 1;
        }
        proof {
            assert(lt0.take(lt0.len() as int) =~= lt0);
        }
        self.long_term_edges = lt;
        let ghost wm0 = self.working_memory@;
        let mut wm: Vec<(ConceptId, i64)> = Vec::new();
        let mut m: usize = 0;
        while m < self.working_memory.len()
            invariant
                m <= wm0.len(),
                self.working_memory@ == wm0,
                wm@ =~= wm0.take(m as int).filter(|p: (ConceptId, i64)| !ids@.contains(p.0)),
            decreases wm0.len() - m,
        {
            proof {
                lemma_take_filter_step(
                    wm0,
                    |p: (ConceptId, i64)| !ids@.contains(p.0),
                    m as int,
                );
            }
            let p = self.working_memory[m];
            if !id_in_list(ids, p.0) {
                wm.push(p);
            }
            m = m + 1;
        }
        proof {
            assert(wm0.take(wm0.len() as int) =~= wm0);
        }
        self.working_memory = wm;
        proof {
            lemma_remove_set_wf(g0, *self, ids@);
        }
    }

    /// Targeted forgetting: remove each listed concept, its working-memory
    /// entry, and all of its incident edges.  Returns how many concepts were
    /// actually removed (a duplicate or unknown identifier removes nothing).
    pub fn forget_concepts(&mut self, concept_ids: &Vec<ConceptId>) -> (r: usize)
        requires
            old(self).wf(),
        ensures
            final(self).wf(),
            final(self).concepts@ == old(self).concepts@.filter(
                |c: Concept| !concept_ids@.contains(c.id),
            ),
            final(self).short_term_edges@ == old(self).short_term_edges@.filter(
                |e: SynapticEdge| !concept_ids@.contains(e.from) && !concept_ids@.contains(e.to),
            ),
            final(self).long_term_edges@ == old(self).long_term_edges@.filter(
                |e: SynapticEdge| !concept_ids@.contains(e.from) && !concept_ids@.contains(e.to),
            ),
            final(self).working_memory@ == old(self).working_memory@.filter(
                |p: (ConceptId, i64)| !concept_ids@.contains(p.0),
            ),
            r == fresh_hits(old(self).concepts@, concept_ids@, concept_ids@.len() as int),
            final(self).config == old(self).config,
            final(self).last_consolidation == old(self).last_consolidation,
    {
        let ghost cs0 = self.concepts@;
        let mut count: usize = 0;
        let mut i: usize = 0;
        while i < concept_ids.len()
            invariant
                i <= concept_ids@.len(),
                self.concepts@ == cs0,
                count == fresh_hits(cs0, concept_ids@, i as int),
                count <= i,
                self.wf() == old(self).wf(),
                *self == *old(self),
            decreases concept_ids@.len() - i,
        {
            let x = concept_ids[i];
            let present = find_concept(&self.concepts, x).is_some();
            let seen = id_in_prefix(concept_ids, i, x);
            if present && !seen {
                count = count + 1;
            }
            i = i + 1;
        }
        self.remove_concept_set(concept_ids);
        count
    }
}

/// Removing the concepts of an identifier list by filtering keeps the graph
/// invariants.
pub proof fn lemma_remove_set_wf(g0: MemoryGraph, g1: MemoryGraph, ids: Seq<ConceptId>)
    requires
        g0.wf(),
        g1.concepts@ == g0.concepts@.filter(|c: Concept| !ids.contains(c.id)),
        g1.short_term_edges@ == g0.short_term_edges@.filter(
            |e: SynapticEdge| !ids.contains(e.from) && !ids.contains(e.to),
        ),
        g1.long_term_edges@ == g0.long_term_edges@.filter(
            |e: SynapticEdge| !ids.contains(e.from) && !ids.contains(e.to),
        ),
        g1.working_memory@ == g0.working_memory@.filter(
            |p: (ConceptId, i64)| !ids.contains(p.0),
        ),
        g1.config == g0.config,
    ensures
        g1.wf(),
        forall|x: ConceptId| ids.contains(x) ==> !has_concept_id(g1.concepts@, x),
        forall|x: ConceptId| ids.contains(x) ==> !crate::graph::wm_has(g1.working_memory@, x),
        forall|k: int|
            0 <= k < g1.short_term_edges@.len() ==> !ids.contains(
                (#[trigger] g1.short_term_edges@[k]).from,
            ) && !ids.contains(g1.short_term_edges@[k].to),
        forall|k: int|
            0 <= k < g1.long_term_edges@.len() ==> !ids.contains(
                (#[trigger] g1.long_term_edges@[k]).from,
            ) && !ids.contains(g1.long_term_edges@[k].to),
{
    let dead = |x: ConceptId| ids.contains(x);
    lemma_filter_equiv(
        g0.concepts@,
        |c: Concept| !ids.contains(c.id),
        |c: Concept| !dead(c.id),
    );
    lemma_filter_equiv(
        g0.short_term_edges@,
        |e: SynapticEdge| !ids.contains(e.from) && !ids.contains(e.to),
        |e: SynapticEdge| !dead(e.from) && !dead(e.to),
    );
    lemma_filter_equiv(
        g0.long_term_edges@,
        |e: SynapticEdge| !ids.contains(e.from) && !ids.contains(e.to),
        |e: SynapticEdge| !dead(e.from) && !dead(e.to),
    );
    lemma_filter_equiv(
        g0.working_memory@,
        |p: (ConceptId, i64)| !ids.contains(p.0),
        |p: (ConceptId, i64)| !dead(p.0),
    );
    lemma_remove_by_pred_wf(g0, g1, dead);
}

/// The endpoint incidence of a concept is at most twice the table size.
pub proof fn lemma_incidence_bound(s: Seq<SynapticEdge>, c: ConceptId)
    ensures
        0 <= incidence(s, c) <= 2 * s.len(),
    decreases s.len(),
{
    if s.len() > 0 {
        lemma_incidence_bound(s.drop_last(), c);
    }
}

/// Mapping to identifiers commutes with appending one concept.
pub proof fn lemma_map_id_push(t: Seq<Concept>, c: Concept)
    ensures
        t.push(c).map_values(|c2: Concept| c2.id) == t.map_values(|c2: Concept| c2.id).push(c.id),
{
    assert(t.push(c).map_values(|c2: Concept| c2.id) =~= t.map_values(|c2: Concept| c2.id).push(
        c.id,
    ));
}

impl MemoryGraph {
    /// Remove concepts with fewer than `min_connections` edge endpoints over
    /// both zones, with their working-memory entries and incident edges.
    /// Returns how many concepts were removed.
    pub fn remove_isolated_concepts(&mut self, min_connections: usize) -> (r: usize)
        requires
            old(self).wf(),
        ensures
            final(self).wf(),
            ({
                let st0 = old(self).short_term_edges@;
                let lt0 = old(self).long_term_edges@;
                let dead = old(self).concepts@.filter(
                    |c: Concept| isolated_concept(st0, lt0, c.id, min_connections),
                ).map_values(|c2: Concept| c2.id);
                &&& final(self).concepts@ == old(self).concepts@.filter(
                    |c: Concept| !dead.contains(c.id),
                )
                &&& final(self).short_term_edges@ == old(self).short_term_edges@.filter(
                    |e: SynapticEdge| !dead.contains(e.from) && !dead.contains(e.to),
                )
                &&& final(self).long_term_edges@ == old(self).long_term_edges@.filter(
                    |e: SynapticEdge| !dead.contains(e.from) && !dead.contains(e.to),
                )
                &&& final(self).working_memory@ == old(self).working_memory@.filter(
                    |p: (ConceptId, i64)| !dead.contains(p.0),
                )
                &&& r == dead.len()
            }),
            final(self).config == old(self).config,
            final(self).last_consolidation == old(self).last_consolidation,
    {
        let ghost cs0 = self.concepts@;
        let ghost st0 = self.short_term_edges@;
        let ghost lt0 = self.long_term_edges@;
        let mut dead: Vec<ConceptId> = Vec::new();
        let mut i: usize = 0;
        while i < self.concepts.len()
            invariant
                i <= cs0.len(),
                *self == *old(self),
                self.concepts@ == cs0,
                self.short_term_edges@ == st0,
                self.long_term_edges@ == lt0,
                dead@ == cs0.take(i as int).filter(
                    |c: Concept| isolated_concept(st0, lt0, c.id, min_connections),
                ).map_values(|c2: Concept| c2.id),
            decreases cs0.len() - i,
        {
            proof {
                lemma_take_filter_step(
                    cs0,
                    |c: Concept| isolated_concept(st0, lt0, c.id, min_connections),
                    i as int,
                );
                lemma_map_id_push(
                    cs0.take(i as int).filter(
                        |c: Concept| isolated_concept(st0, lt0, c.id, min_connections),
                    ),
                    cs0[i as int],
                );
                lemma_incidence_bound(st0, cs0[i as int].id);
                lemma_incidence_bound(lt0, cs0[i as int].id);
            }
            let id = self.concepts[i].id;
            let a = incidence_count(&self.short_term_edges, id);
            let b = incidence_count(&self.long_term_edges, id);
            let total = if a <= u128::MAX - b {
                a + b
            } else {
                u128::MAX
            };
            if total < (min_connections as u128) {
                dead.push(id);
            }
            i = i + 1;
        }
        proof {
            assert(cs0.take(cs0.len() as int) =~= cs0);
        }
        let removed = dead.len();
        self.remove_concept_set(&dead);
        removed
    }

    /// Remove every concept not accessed for `days_threshold` days with
    /// fewer than three accesses, cascading over its edges and its
    /// working-memory entry.  Returns how many concepts were removed.
    pub fn remove_unused_concepts(&mut self, days_threshold: i64, now: i64) -> (r: usize)
        requires
            old(self).wf(),
        ensures
            final(self).wf(),
            ({
                let dead = old(self).concepts@.filter(
                    |c: Concept| unused_concept(c, now, days_threshold),
                ).map_values(|c2: Concept| c2.id);
                &&& final(self).concepts@ == old(self).concepts@.filter(
                    |c: Concept| !dead.contains(c.id),
                )
                &&& final(self).short_term_edges@ == old(self).short_term_edges@.filter(
                    |e: SynapticEdge| !dead.contains(e.from) && !dead.contains(e.to),
                )
                &&& final(self).long_term_edges@ == old(self).long_term_edges@.filter(
                    |e: SynapticEdge| !dead.contains(e.from) && !dead.contains(e.to),
                )
                &&& final(self).working_memory@ == old(self).working_memory@.filter(
                    |p: (ConceptId, i64)| !dead.contains(p.0),
                )
                &&& r == dead.len()
            }),
            final(self).config == old(self).config,
            final(self).last_consolidation == old(self).last_consolidation,
    {
        let ghost cs0 = self.concepts@;
        let mut dead: Vec<ConceptId> = Vec::new();
        let mut i: usize = 0;
        while i < self.concepts.len()
            invariant
                i <= cs0.len(),
                *self == *old(self),
                self.concepts@ == cs0,
                dead@ == cs0.take(i as int).filter(
                    |c: Concept| unused_concept(c, now, days_threshold),
                ).map_values(|c2: Concept| c2.id),
            decreases cs0.len() - i,
        {
            proof {
                lemma_take_filter_step(
                    cs0,
                    |c: Concept| unused_concept(c, now, days_threshold),
                    i as int,
                );
                lemma_map_id_push(
                    cs0.take(i as int).filter(
                        |c: Concept| unused_concept(c, now, days_threshold),
                    ),
                    cs0[i as int],
                );
            }
            let c = &self.concepts[i];
            let cutoff: i128 = (now as i128) - (days_threshold as i128) * 86400;
            if (c.last_accessed as i128) < cutoff && c.access_count < 3 {
                dead.push(c.id);
            }
            i = i + 1;
        }
        proof {
            assert(cs0.take(cs0.len() as int) =~= cs0);
        }
        let removed = dead.len();
        self.remove_concept_set(&dead);
        removed
    }

    /// Aggressive cleanup of short-term edges: remove those not accessed for
    /// a week whose weight is below `0.3`.  Returns how many were removed.
    pub fn aggressive_connection_pruning(&mut self, now: i64) -> (r: usize)
        requires
            old(self).wf(),
        ensures
            final(self).wf(),
            final(self).short_term_edges@ == old(self).short_term_edges@.filter(
                |e: SynapticEdge| !stale_weak_edge(e, now),
            ),
            r == old(self).short_term_edges@.len() - final(self).short_term_edges@.len(),
            final(self).concepts@ == old(self).concepts@,
            final(self).long_term_edges@ == old(self).long_term_edges@,
            final(self).working_memory@ == old(self).working_memory@,
            final(self).config == old(self).config,
            final(self).last_consolidation == old(self).last_consolidation,
    {
        let ghost g0 = *self;
        let ghost st0 = self.short_term_edges@;
        let mut st: Vec<SynapticEdge> = Vec::new();
        let mut i: usize = 0;
        while i < self.short_term_edges.len()
            invariant
                i <= st0.len(),
                self.short_term_edges@ == st0,
                st@ == st0.take(i as int).filter(|e: SynapticEdge| !stale_weak_edge(e, now)),
            decreases st0.len() - i,
        {
            proof {
                lemma_take_filter_step(st0, |e: SynapticEdge| !stale_weak_edge(e, now), i as int);
            }
            let e = self.short_term_edges[i];
            let stale = (e.last_accessed as i128) < (now as i128) - 604_800 && e.weight.value()
                < 300_000;
            if !stale {
                st.push(e);
            }
            i = i + 1;
        }
        proof {
            assert(st0.take(st0.len() as int) =~= st0);
            broadcast use vstd::seq_lib::group_filter_ensures;

            assert(st@.len() <= st0.len());
        }
        let pruned = self.short_term_edges.len() - st.len();
        self.short_term_edges = st;
        proof {
            lemma_st_shrink_wf(g0, *self, now);
        }
        pruned
    }

    /// Aggressive cleanup of concepts: remove those over two weeks old with
    /// fewer than five accesses and content under fifty bytes, cascading over
    /// edges and working memory.  Returns how many concepts were removed.
    pub fn aggressive_concept_removal(&mut self, now: i64) -> (r: usize)
        requires
            old(self).wf(),
        ensures
            final(self).wf(),
            ({
                let dead = old(self).concepts@.filter(
                    |c: Concept| aggressive_old_concept(c, now),
                ).map_values(|c2: Concept| c2.id);
                &&& final(self).concepts@ == old(self).concepts@.filter(
                    |c: Concept| !dead.contains(c.id),
                )
                &&& final(self).short_term_edges@ == old(self).short_term_edges@.filter(
                    |e: SynapticEdge| !dead.contains(e.from) && !dead.contains(e.to),
                )
                &&& final(self).long_term_edges@ == old(self).long_term_edges@.filter(
                    |e: SynapticEdge| !dead.contains(e.from) && !dead.contains(e.to),
                )
                &&& final(self).working_memory@ == old(self).working_memory@.filter(
                    |p: (ConceptId, i64)| !dead.contains(p.0),
                )
                &&& r == dead.len()
            }),
            final(self).config == old(self).config,
            final(self).last_consolidation == old(self).last_consolidation,
    {
        let ghost cs0 = self.concepts@;
        let mut dead: Vec<ConceptId> = Vec::new();
        let mut i: usize = 0;
        while i < self.concepts.len()
            invariant
                i <= cs0.len(),
                *self == *old(self),
                self.concepts@ == cs0,
                dead@ == cs0.take(i as int).filter(
                    |c: Concept| aggressive_old_concept(c, now),
                ).map_values(|c2: Concept| c2.id),
            decreases cs0.len() - i,
        {
            proof {
                lemma_take_filter_step(cs0, |c: Concept| aggressive_old_concept(c, now), i as int);
                lemma_map_id_push(
                    cs0.take(i as int).filter(|c: Concept| aggressive_old_concept(c, now)),
                    cs0[i as int],
                );
            }
            let c = &self.concepts[i];
            let old_enough = (c.last_accessed as i128) < (now as i128) - 1_209_600;
            let cstr = c.content.as_str();
            let blen = cstr.len();
            proof {
                assert(cstr.spec_bytes() == vstd::utf8::encode_utf8(cstr@));
            }
            if old_enough && c.access_count < 5 && blen < 50 {
                dead.push(c.id);
            }
            i = i + 1;
        }
        proof {
            assert(cs0.take(cs0.len() as int) =~= cs0);
        }
        let removed = dead.len();
        self.remove_concept_set(&dead);
        removed
    }

    /// The concepts that the disuse phase would remove.
    pub fn get_forgetting_candidates(&self, config: &ForgettingConfig, now: i64) -> (r: Vec<
        ConceptId,
    >)
        ensures
            r@ == self.concepts@.filter(
                |c: Concept| unused_concept(c, now, config.unused_concept_days),
            ).map_values(|c2: Concept| c2.id),
    {
        let ghost cs0 = self.concepts@;
        let days = config.unused_concept_days;
        let mut out: Vec<ConceptId> = Vec::new();
        let mut i: usize = 0;
        while i < self.concepts.len()
            invariant
                i <= cs0.len(),
                self.concepts@ == cs0,
                days == config.unused_concept_days,
                out@ == cs0.take(i as int).filter(
                    |c: Concept| unused_concept(c, now, config.unused_concept_days),
                ).map_values(|c2: Concept| c2.id),
            decreases cs0.len() - i,
        {
            proof {
                lemma_take_filter_step(
                    cs0,
                    |c: Concept| unused_concept(c, now, config.unused_concept_days),
                    i as int,
                );
                lemma_map_id_push(
                    cs0.take(i as int).filter(
                        |c: Concept| unused_concept(c, now, config.unused_concept_days),
                    ),
                    cs0[i as int],
                );
            }
            let c = &self.concepts[i];
            let cutoff: i128 = (now as i128) - (days as i128) * 86400;
            if (c.last_accessed as i128) < cutoff && c.access_count < 3 {
                out.push(c.id);
            }
            i = i + 1;
        }
        proof {
            assert(cs0.take(cs0.len() as int) =~= cs0);
        }
        out
    }

    /// The full forgetting cycle, in order: weak-edge pruning, Ebbinghaus
    /// decay, isolation removal, disuse removal, and, when configured, the
    /// aggressive edge and concept passes.
    pub fn forget(&mut self, config: ForgettingConfig, now: i64) -> (r: ForgettingStats)
        requires
            old(self).wf(),
        ensures
            final(self).wf(),
            r.weak_connections_decayed <= usize::MAX,
            ({
                let thr = config.weak_connection_threshold;
                let st1 = old(self).short_term_edges@.filter(
                    |e: SynapticEdge| e.weight.0 >= thr,
                );
                let lt1 = old(self).long_term_edges@.filter(
                    |e: SynapticEdge| e.weight.0 >= thr / 2,
                );
                let st2 = ebb_pass(st1, now, false);
                let lt2 = ebb_pass(lt1, now, true);
                let dead_iso = old(self).concepts@.filter(
                    |c: Concept| isolated_concept(st2, lt2, c.id, config.concept_isolation_threshold),
                ).map_values(|c2: Concept| c2.id);
                let c3 = old(self).concepts@.filter(|c: Concept| !dead_iso.contains(c.id));
                let st3 = st2.filter(
                    |e: SynapticEdge| !dead_iso.contains(e.from) && !dead_iso.contains(e.to),
                );
                let lt3 = lt2.filter(
                    |e: SynapticEdge| !dead_iso.contains(e.from) && !dead_iso.contains(e.to),
                );
                let wm3 = old(self).working_memory@.filter(
                    |p: (ConceptId, i64)| !dead_iso.contains(p.0),
                );
                let dead_un = c3.filter(
                    |c: Concept| unused_concept(c, now, config.unused_concept_days),
                ).map_values(|c2: Concept| c2.id);
                let c4 = c3.filter(|c: Concept| !dead_un.contains(c.id));
                let st4 = st3.filter(
                    |e: SynapticEdge| !dead_un.contains(e.from) && !dead_un.contains(e.to),
                );
                let lt4 = lt3.filter(
                    |e: SynapticEdge| !dead_un.contains(e.from) && !dead_un.contains(e.to),
                );
                let wm4 = wm3.filter(|p: (ConceptId, i64)| !dead_un.contains(p.0));
                &&& r.weak_connections_decayed == sat_add_usize(
                    ebb_count(st1, now, false),
                    ebb_count(lt1, now, true),
                )
                &&& r.isolated_concepts_removed == dead_iso.len()
                &&& if !config.aggressive_forgetting {
                    &&& final(self).concepts@ == c4
                    &&& final(self).short_term_edges@ == st4
                    &&& final(self).long_term_edges@ == lt4
                    &&& final(self).working_memory@ == wm4
                    &&& r.concepts_forgotten == dead_un.len()
                    &&& r.connections_pruned == sat_add_usize(
                        old(self).short_term_edges@.len() - st1.len(),
                        old(self).long_term_edges@.len() - lt1.len(),
                    )
                } else {
                    let st5 = st4.filter(|e: SynapticEdge| !stale_weak_edge(e, now));
                    let dead_ag = c4.filter(
                        |c: Concept| aggressive_old_concept(c, now),
                    ).map_values(|c2: Concept| c2.id);
                    let c6 = c4.filter(|c: Concept| !dead_ag.contains(c.id));
                    let st6 = st5.filter(
                        |e: SynapticEdge| !dead_ag.contains(e.from) && !dead_ag.contains(e.to),
                    );
                    let lt6 = lt4.filter(
                        |e: SynapticEdge| !dead_ag.contains(e.from) && !dead_ag.contains(e.to),
                    );
                    let wm6 = wm4.filter(|p: (ConceptId, i64)| !dead_ag.contains(p.0));
                    &&& final(self).concepts@ == c6
                    &&& final(self).short_term_edges@ == st6
                    &&& final(self).long_term_edges@ == lt6
                    &&& final(self).working_memory@ == wm6
                    &&& r.concepts_forgotten == sat_add_usize(dead_un.len() as int, dead_ag.len() as int)
                    &&& r.connections_pruned == sat_add_usize(
                        sat_add_usize(
                            old(self).short_term_edges@.len() - st1.len(),
                            old(self).long_term_edges@.len() - lt1.len(),
                        ),
                        st4.len() - st5.len(),
                    )
                }
            }),
            final(self).config == old(self).config,
            final(self).last_consolidation == old(self).last_consolidation,
    {
        let pruned1 = self.prune_weak_connections(config.weak_connection_threshold);
        let decayed = self.apply_forgetting_curves(now);
        let isolated = self.remove_isolated_concepts(config.concept_isolation_threshold);
        let forgotten1 = self.remove_unused_concepts(config.unused_concept_days, now);
        let mut pruned = pruned1;
        let mut forgotten = forgotten1;
        if config.aggressive_forgetting {
            let pruned2 = self.aggressive_connection_pruning(now);
            let forgotten2 = self.aggressive_concept_removal(now);
            pruned = if pruned1 <= usize::MAX - pruned2 {
                pruned1 + pruned2
            } else {
                usize::MAX
            };
            forgotten = if forgotten1 <= usize::MAX - forgotten2 {
                forgotten1 + forgotten2
            } else {
                usize::MAX
            };
        }
        ForgettingStats {
            concepts_forgotten: forgotten,
            connections_pruned: pruned,
            weak_connections_decayed: decayed,
            isolated_concepts_removed: isolated,
        }
    }
}

/// Aggressive short-term pruning keeps the graph invariants.
pub proof fn lemma_st_shrink_wf(g0: MemoryGraph, g1: MemoryGraph, now: i64)
    requires
        g0.wf(),
        g1.concepts@ == g0.concepts@,
        g1.working_memory@ == g0.working_memory@,
        g1.long_term_edges@ == g0.long_term_edges@,
        g1.config == g0.config,
        g1.short_term_edges@ == g0.short_term_edges@.filter(
            |e: SynapticEdge| !stale_weak_edge(e, now),
        ),
    ensures
        g1.wf(),
{
    broadcast use vstd::seq_lib::group_filter_ensures;

    let pred = |e: SynapticEdge| !stale_weak_edge(e, now);
    let key = |e: SynapticEdge| (e.from, e.to);
    let st0 = g0.short_term_edges@;
    let st1 = g1.short_term_edges@;
    lemma_filter_keys_distinct(st0, pred, key);
    assert forall|a: int, b: int| 0 <= a < b < st1.len() implies !(st1[a].from == st1[b].from
        && st1[a].to == st1[b].to) by {
        assert(key(st1[a]) != key(st1[b]));
    }
    assert forall|k: int| 0 <= k < st1.len() implies (#[trigger] st1[k]).wf() && has_concept_id(
        g1.concepts@,
        st1[k].from,
    ) && has_concept_id(g1.concepts@, st1[k].to) && !has_edge_key(
        g1.long_term_edges@,
        st1[k].from,
        st1[k].to,
    ) by {
        assert(st0.contains(st1[k]));
        let j = choose|j: int| 0 <= j < st0.len() && st0[j] == st1[k];
        assert(st0[j].wf());
        assert(has_concept_id(g0.concepts@, st0[j].from));
        assert(has_concept_id(g0.concepts@, st0[j].to));
        assert(!has_edge_key(g0.long_term_edges@, st0[j].from, st0[j].to));
    }
}

/// A concept with one access struck off, saturating at zero.
pub open spec fn weakened_concept(c: Concept) -> Concept {
    Concept {
        access_count: if c.access_count > 0 {
            (c.access_count - 1) as u64
        } else {
            0
        },
        ..c
    }
}

impl MemoryGraph {
    /// Content similarity of two concepts: Jaccard over their distinct
    /// lower-cased whitespace tokens.
    pub fn calculate_concept_similarity(&self, concept_a: &Concept, concept_b: &Concept) -> (r:
        u64)
        ensures
            r == crate::text::content_similarity(concept_a.content@, concept_b.content@),
            r <= crate::types::UNIT,
    {
        crate::text::content_similarity_exec(
            concept_a.content.as_str(),
            concept_b.content.as_str(),
        )
    }

    /// Interference-based forgetting: every concept whose content similarity
    /// to the newly learned concept exceeds the threshold has its incident
    /// short-term edges decayed by `0.2` and one access struck off.  Returns
    /// how many concepts were affected; an unknown identifier affects
    /// nothing.
    pub fn interference_forgetting(
        &mut self,
        new_concept_id: ConceptId,
        similarity_threshold: u64,
    ) -> (r: usize)
        requires
            old(self).wf(),
        ensures
            final(self).wf(),
            !has_concept_id(old(self).concepts@, new_concept_id) ==> *final(self) == *old(self)
                && r == 0,
            has_concept_id(old(self).concepts@, new_concept_id) ==> ({
                let ncontent = concept_lookup(old(self).concepts@, new_concept_id).content@;
                let sims = old(self).concepts@.filter(
                    |c: Concept|
                        c.id != new_concept_id && crate::text::content_similarity(
                            ncontent,
                            c.content@,
                        ) > similarity_threshold,
                ).map_values(|c2: Concept| c2.id);
                &&& r == sims.len()
                &&& final(self).short_term_edges@ == crate::plasticity::sap_upto(
                    old(self).short_term_edges@,
                    sims,
                    sims.len() as int,
                    200_000,
                )
                &&& final(self).concepts@.len() == old(self).concepts@.len()
                &&& forall|k: int|
                    0 <= k < old(self).concepts@.len() ==> crate::graph::concept_eq(
                        #[trigger] final(self).concepts@[k],
                        if sims.contains(old(self).concepts@[k].id) {
                            weakened_concept(old(self).concepts@[k])
                        } else {
                            old(self).concepts@[k]
                        },
                    )
                &&& final(self).long_term_edges@ == old(self).long_term_edges@
                &&& final(self).working_memory@ == old(self).working_memory@
            }),
            final(self).config == old(self).config,
            final(self).last_consolidation == old(self).last_consolidation,
    {
        let ghost g0 = *self;
        let ghost cs0 = self.concepts@;
        let idx = match find_concept(&self.concepts, new_concept_id) {
            Some(i) => i,
            None => {
                return 0;
            },
        };
        proof {
            lemma_concept_index(cs0, new_concept_id, idx as int);
        }
        let new_content = self.concepts[idx].content.clone();
        let ghost ncontent = concept_lookup(cs0, new_concept_id).content@;
        let mut sims: Vec<ConceptId> = Vec::new();
        let mut i: usize = 0;
        while i < self.concepts.len()
            invariant
                i <= cs0.len(),
                *self == g0,
                self.concepts@ == cs0,
                new_content@ == ncontent,
                ncontent == concept_lookup(cs0, new_concept_id).content@,
                sims@ == cs0.take(i as int).filter(
                    |c: Concept|
                        c.id != new_concept_id && crate::text::content_similarity(
                            ncontent,
                            c.content@,
                        ) > similarity_threshold,
                ).map_values(|c2: Concept| c2.id),
            decreases cs0.len() - i,
        {
            proof {
                lemma_take_filter_step(
                    cs0,
                    |c: Concept|
                        c.id != new_concept_id && crate::text::content_similarity(
                            ncontent,
                            c.content@,
                        ) > similarity_threshold,
                    i as int,
                );
                lemma_map_id_push(
                    cs0.take(i as int).filter(
                        |c: Concept|
                            c.id != new_concept_id && crate::text::content_similarity(
                                ncontent,
                                c.content@,
                            ) > similarity_threshold,
                    ),
                    cs0[i as int],
                );
            }
            let cid = self.concepts[i].id;
            if !(cid == new_concept_id) {
                let sim = crate::text::content_similarity_exec(
                    new_content.as_str(),
                    self.concepts[i].content.as_str(),
                );
                if sim > similarity_threshold {
                    sims.push(cid);
                }
            }
            i = i + 1;
        }
        proof {
            assert(cs0.take(cs0.len() as int) =~= cs0);
        }
        let ghost simsv = sims@;
        let mut d: usize = 0;
        while d < sims.len()
            invariant
                d <= simsv.len(),
                sims@ == simsv,
                self.concepts@ == cs0,
                self.long_term_edges@ == g0.long_term_edges@,
                self.working_memory@ == g0.working_memory@,
                self.config == g0.config,
                self.last_consolidation == g0.last_consolidation,
                g0.wf(),
                edge_keys_unique(self.short_term_edges@),
                edges_wf(self.short_term_edges@),
                self.short_term_edges@ == crate::plasticity::sap_upto(
                    g0.short_term_edges@,
                    simsv,
                    d as int,
                    200_000,
                ),
                self.short_term_edges@.len() == g0.short_term_edges@.len(),
                forall|k: int|
                    0 <= k < self.short_term_edges@.len() ==> (
                    #[trigger] self.short_term_edges@[k]).from == g0.short_term_edges@[k].from
                        && self.short_term_edges@[k].to == g0.short_term_edges@[k].to,
            decreases simsv.len() - d,
        {
            let ghost pre = self.short_term_edges@;
            crate::plasticity::decay_incident_edges(&mut self.short_term_edges, sims[d], 200_000);
            proof {
                assert(crate::plasticity::sap_upto(g0.short_term_edges@, simsv, d as int + 1, 200_000)
                    == crate::plasticity::decay_incident(pre, simsv[d as int], 200_000));
                assert forall|k: int| 0 <= k < self.short_term_edges@.len() implies (
                #[trigger] self.short_term_edges@[k]).from == g0.short_term_edges@[k].from
                    && self.short_term_edges@[k].to == g0.short_term_edges@[k].to by {
                    assert(self.short_term_edges@[k].from == pre[k].from);
                    assert(self.short_term_edges@[k].to == pre[k].to);
                }
            }
            d = d + 1;
        }
        let mut m: usize = 0;
        while m < self.concepts.len()
            invariant
                m <= cs0.len(),
                sims@ == simsv,
                g0.wf(),
                self.long_term_edges@ == g0.long_term_edges@,
                self.working_memory@ == g0.working_memory@,
                self.config == g0.config,
                self.last_consolidation == g0.last_consolidation,
                edge_keys_unique(self.short_term_edges@),
                edges_wf(self.short_term_edges@),
                self.short_term_edges@ == crate::plasticity::sap_upto(
                    g0.short_term_edges@,
                    simsv,
                    simsv.len() as int,
                    200_000,
                ),
                self.short_term_edges@.len() == g0.short_term_edges@.len(),
                forall|k: int|
                    0 <= k < self.short_term_edges@.len() ==> (
                    #[trigger] self.short_term_edges@[k]).from == g0.short_term_edges@[k].from
                        && self.short_term_edges@[k].to == g0.short_term_edges@[k].to,
                self.concepts@.len() == cs0.len(),
                forall|k: int|
                    0 <= k < m ==> crate::graph::concept_eq(
                        #[trigger] self.concepts@[k],
                        if simsv.contains(cs0[k].id) {
                            weakened_concept(cs0[k])
                        } else {
                            cs0[k]
                        },
                    ),
                forall|k: int| m <= k < cs0.len() ==> self.concepts@[k] == cs0[k],
                forall|k: int|
                    0 <= k < cs0.len() ==> (#[trigger] self.concepts@[k]).id == cs0[k].id,
            decreases cs0.len() - m,
        {
            let cid = self.concepts[m].id;
            let dec = id_in_list(&sims, cid);
            if dec {
                let c = &mut self.concepts[m];
                if c.access_count > 0 {
                    c.access_count = c.access_count - 1;
                }
            }
            m = m + 1;
        }
        proof {
            lemma_interference_wf(g0, *self);
        }
        sims.len()
    }
}

/// Interference decays and access strike-offs keep the graph invariants:
/// identifiers and edge keys are unchanged.
pub proof fn lemma_interference_wf(g0: MemoryGraph, g1: MemoryGraph)
    requires
        g0.wf(),
        g1.concepts@.len() == g0.concepts@.len(),
        forall|k: int|
            0 <= k < g0.concepts@.len() ==> (#[trigger] g1.concepts@[k]).id == g0.concepts@[k].id,
        edge_keys_unique(g1.short_term_edges@),
        edges_wf(g1.short_term_edges@),
        g1.short_term_edges@.len() == g0.short_term_edges@.len(),
        forall|k: int|
            0 <= k < g1.short_term_edges@.len() ==> (#[trigger] g1.short_term_edges@[k]).from
                == g0.short_term_edges@[k].from && g1.short_term_edges@[k].to
                == g0.short_term_edges@[k].to,
        g1.long_term_edges@ == g0.long_term_edges@,
        g1.working_memory@ == g0.working_memory@,
        g1.config == g0.config,
    ensures
        g1.wf(),
{
    assert forall|a: int, b: int| 0 <= a < b < g1.concepts@.len() implies g1.concepts@[a].id
        != g1.concepts@[b].id by {
        assert(g0.concepts@[a].id != g0.concepts@[b].id);
    }
    assert forall|k: int| 0 <= k < g1.short_term_edges@.len() implies has_concept_id(
        g1.concepts@,
        (#[trigger] g1.short_term_edges@[k]).from,
    ) && has_concept_id(g1.concepts@, g1.short_term_edges@[k].to) && !has_edge_key(
        g1.long_term_edges@,
        g1.short_term_edges@[k].from,
        g1.short_term_edges@[k].to,
    ) by {
        let e0 = g0.short_term_edges@[k];
        assert(has_concept_id(g0.concepts@, e0.from));
        let a = concept_index_of(g0.concepts@, e0.from);
        assert(g1.concepts@[a].id == e0.from);
        assert(has_concept_id(g0.concepts@, e0.to));
        let b2 = concept_index_of(g0.concepts@, e0.to);
        assert(g1.concepts@[b2].id == e0.to);
        assert(!has_edge_key(g0.long_term_edges@, e0.from, e0.to));
    }
    assert forall|k: int| 0 <= k < g1.long_term_edges@.len() implies has_concept_id(
        g1.concepts@,
        (#[trigger] g1.long_term_edges@[k]).from,
    ) && has_concept_id(g1.concepts@, g1.long_term_edges@[k].to) by {
        let e0 = g0.long_term_edges@[k];
        assert(has_concept_id(g0.concepts@, e0.from));
        let a = concept_index_of(g0.concepts@, e0.from);
        assert(g1.concepts@[a].id == e0.from);
        assert(has_concept_id(g0.concepts@, e0.to));
        let b2 = concept_index_of(g0.concepts@, e0.to);
        assert(g1.concepts@[b2].id == e0.to);
    }
}

} // verus!
