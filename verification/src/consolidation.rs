//! Consolidation: promotion of short-term edges to long-term storage, merge
//! with reactivated long-term edges, pruning, interference, and
//! reconsolidation of recalled memories.

use vstd::prelude::*;
use vstd::string::StringSliceAdditionalSpecFns;
use crate::types::{Concept, ConceptId, SynapticEdge, SynapticWeight, decayed_edge,
    weight_active, lemma_weaken_bounds, UNIT};
use crate::graph::{MemoryGraph, concept_lookup, has_concept_id, edge_keys_unique, edges_wf,
    has_edge_key, edge_index_of, edge_lookup, wm_keys_unique, keys_distinct,
    lemma_filter_keys_distinct, lemma_take_filter_step, lemma_edge_index, touches, find_concept,
    find_edge};

verus! {

/// Counts returned by a consolidation run.
#[derive(Debug, Clone, Copy, PartialEq, Eq, Structural)]
pub struct ConsolidationStats {
    pub promoted_to_long_term: usize,
    pub pruned_weak_connections: usize,
    pub reactivated_connections: usize,
    pub total_short_term_before: usize,
    pub total_long_term_after: usize,
}

/// A concept counts as important when it exists and has been accessed at
/// least five times.
pub open spec fn concept_important(concepts: Seq<Concept>, id: ConceptId) -> bool {
    has_concept_id(concepts, id) && concept_lookup(concepts, id).access_count >= 5
}

/// The promotion criterion: at least three of the five predicates hold.
/// The predicates: the weight reaches the consolidation threshold; at least
/// three activations; accessed within the past seven days; created at least
/// one hour ago; both endpoints important.
pub open spec fn promote_criterion(
    e: SynapticEdge,
    concepts: Seq<Concept>,
    threshold: u64,
    now: i64,
) -> bool {
    let c1: int = if e.weight.0 >= threshold {
        1
    } else {
        0
    };
    let c2: int = if e.activation_count >= 3 {
        1
    } else {
        0
    };
    let c3: int = if (e.last_accessed as int) > (now as int) - 7 * 86400 {
        1
    } else {
        0
    };
    let c4: int = if (e.created_at as int) < (now as int) - 3600 {
        1
    } else {
        0
    };
    let c5: int = if concept_important(concepts, e.from) && concept_important(concepts, e.to) {
        1
    } else {
        0
    };
    c1 + c2 + c3 + c4 + c5 >= 3
}

/// A long-term edge merged with a promoted short-term edge carrying the same
/// key: weights averaged, most recent access kept, activation counts summed.
pub open spec fn merged_edge(lt_e: SynapticEdge, st_e: SynapticEdge) -> SynapticEdge {
    SynapticEdge {
        weight: SynapticWeight((((lt_e.weight.0 + st_e.weight.0) as int) / 2) as u64),
        last_accessed: if st_e.last_accessed > lt_e.last_accessed {
            st_e.last_accessed
        } else {
            lt_e.last_accessed
        },
        activation_count: if lt_e.activation_count as int + st_e.activation_count as int
            <= u64::MAX as int {
            (lt_e.activation_count + st_e.activation_count) as u64
        } else {
            u64::MAX
        },
        ..lt_e
    }
}

/// The short-term edges that qualify for promotion.
pub open spec fn promoted_of(
    st: Seq<SynapticEdge>,
    concepts: Seq<Concept>,
    threshold: u64,
    now: i64,
) -> Seq<SynapticEdge> {
    st.filter(|e: SynapticEdge| promote_criterion(e, concepts, threshold, now))
}

/// The short-term edges that stay: not promoted and still active.
pub open spec fn kept_of(
    st: Seq<SynapticEdge>,
    concepts: Seq<Concept>,
    threshold: u64,
    now: i64,
) -> Seq<SynapticEdge> {
    st.filter(
        |e: SynapticEdge|
            !promote_criterion(e, concepts, threshold, now) && weight_active(e.weight.0),
    )
}

/// The long-term table after merging in every promoted edge whose key it
/// already holds.
pub open spec fn lt_merged_of(lt: Seq<SynapticEdge>, promoted: Seq<SynapticEdge>) -> Seq<
    SynapticEdge,
> {
    Seq::new(
        lt.len(),
        |i: int|
            if has_edge_key(promoted, lt[i].from, lt[i].to) {
                merged_edge(lt[i], edge_lookup(promoted, lt[i].from, lt[i].to))
            } else {
                lt[i]
            },
    )
}

/// The promoted edges new to the long-term table, in short-term order.
pub open spec fn lt_appended_of(lt: Seq<SynapticEdge>, promoted: Seq<SynapticEdge>) -> Seq<
    SynapticEdge,
> {
    promoted.filter(|e: SynapticEdge| !has_edge_key(lt, e.from, e.to))
}

/// How many edge endpoints name the given concept (a self-loop counts twice).
pub open spec fn incidence(s: Seq<SynapticEdge>, c: ConceptId) -> int
    decreases s.len(),
{
    if s.len() == 0 {
        0
    } else {
        incidence(s.drop_last(), c) + (if s.last().from == c {
            1int
        } else {
            0int
        }) + (if s.last().to == c {
            1int
        } else {
            0int
        })
    }
}

/// A concept is overloaded when more than fifty short-term edge endpoints
/// name it.
pub open spec fn overloaded(s: Seq<SynapticEdge>, c: ConceptId) -> bool {
    incidence(s, c) > 50
}

/// Interference: every edge touching an overloaded concept decays at twice
/// the decay rate.
pub open spec fn interfered_of(s: Seq<SynapticEdge>, rate2: u64) -> Seq<SynapticEdge> {
    Seq::new(
        s.len(),
        |i: int|
            if overloaded(s, s[i].from) || overloaded(s, s[i].to) {
                decayed_edge(s[i], rate2)
            } else {
                s[i]
            },
    )
}

/// Whether more than fifty endpoints of edges in `v` name `c`.
pub fn is_overloaded(v: &Vec<SynapticEdge>, c: ConceptId) -> (r: bool)
    ensures
        r == overloaded(v@, c),
{
    let mut count: u128 = 0;
    let mut i: usize = 0;
    while i < v.len()
        invariant
            i <= v@.len(),
            count == incidence(v@.take(i as int), c),
            count <= 2 * (i as int),
        decreases v@.len() - i,
    {
        let e = v[i];
        proof {
            let t = v@.take(i as int + 1);
            assert(t.drop_last() =~= v@.take(i as int));
            assert(t.last() == v@[i as int]);
        }
        if e.from == c {
            count = count + 1;
        }
        if e.to == c {
            count = count + 1;
        }
        i = i + 1;
    }
    proof {
        assert(v@.take(v@.len() as int) =~= v@);
    }
    count > 50
}

/// One step of the promotion partition over a growing prefix.
pub proof fn lemma_promote_partition_step(
    st: Seq<SynapticEdge>,
    cs: Seq<Concept>,
    thr: u64,
    now: i64,
    i: int,
)
    requires
        0 <= i < st.len(),
    ensures
        promoted_of(st.take(i + 1), cs, thr, now) == if promote_criterion(st[i], cs, thr, now) {
            promoted_of(st.take(i), cs, thr, now).push(st[i])
        } else {
            promoted_of(st.take(i), cs, thr, now)
        },
        kept_of(st.take(i + 1), cs, thr, now) == if !promote_criterion(st[i], cs, thr, now)
            && weight_active(st[i].weight.0) {
            kept_of(st.take(i), cs, thr, now).push(st[i])
        } else {
            kept_of(st.take(i), cs, thr, now)
        },
{
    let ppred = |e: SynapticEdge| promote_criterion(e, cs, thr, now);
    let kpred = |e: SynapticEdge|
        !promote_criterion(e, cs, thr, now) && weight_active(e.weight.0);
    lemma_take_filter_step(st, ppred, i);
    lemma_take_filter_step(st, kpred, i);
}

/// The promotion partition of a well-formed zone: each part keeps keys
/// unique, stays well formed, and draws its elements from the source.
pub proof fn lemma_promote_partition_props(
    st: Seq<SynapticEdge>,
    cs: Seq<Concept>,
    thr: u64,
    now: i64,
)
    requires
        edge_keys_unique(st),
        edges_wf(st),
    ensures
        edge_keys_unique(promoted_of(st, cs, thr, now)),
        edge_keys_unique(kept_of(st, cs, thr, now)),
        forall|k: int|
            0 <= k < promoted_of(st, cs, thr, now).len() ==> st.contains(
                #[trigger] promoted_of(st, cs, thr, now)[k],
            ) && promote_criterion(promoted_of(st, cs, thr, now)[k], cs, thr, now),
        forall|k: int|
            0 <= k < kept_of(st, cs, thr, now).len() ==> st.contains(
                #[trigger] kept_of(st, cs, thr, now)[k],
            ) && !promote_criterion(kept_of(st, cs, thr, now)[k], cs, thr, now),
        edges_wf(promoted_of(st, cs, thr, now)),
        edges_wf(kept_of(st, cs, thr, now)),
{
    broadcast use vstd::seq_lib::group_filter_ensures;

    let key = |e: SynapticEdge| (e.from, e.to);
    let ppred = |e: SynapticEdge| promote_criterion(e, cs, thr, now);
    let kpred = |e: SynapticEdge|
        !promote_criterion(e, cs, thr, now) && weight_active(e.weight.0);
    lemma_filter_keys_distinct(st, ppred, key);
    lemma_filter_keys_distinct(st, kpred, key);
    let p = promoted_of(st, cs, thr, now);
    let q = kept_of(st, cs, thr, now);
    assert forall|a: int, b: int| 0 <= a < b < p.len() implies !(p[a].from == p[b].from && p[a].to
        == p[b].to) by {
        assert(key(p[a]) != key(p[b]));
    }
    assert forall|a: int, b: int| 0 <= a < b < q.len() implies !(q[a].from == q[b].from && q[a].to
        == q[b].to) by {
        assert(key(q[a]) != key(q[b]));
    }
    assert forall|k: int| 0 <= k < p.len() implies st.contains(#[trigger] p[k])
        && promote_criterion(p[k], cs, thr, now) && p[k].wf() by {
        assert(ppred(p[k]));
        let j = choose|j: int| 0 <= j < st.len() && st[j] == p[k];
        assert(st[j].wf());
    }
    assert forall|k: int| 0 <= k < q.len() implies st.contains(#[trigger] q[k])
        && !promote_criterion(q[k], cs, thr, now) && q[k].wf() by {
        assert(kpred(q[k]));
        let j = choose|j: int| 0 <= j < st.len() && st[j] == q[k];
        assert(st[j].wf());
    }
}

/// One step of the append partition of the promoted edges.
pub proof fn lemma_appended_step(lt: Seq<SynapticEdge>, promoted: Seq<SynapticEdge>, i: int)
    requires
        0 <= i < promoted.len(),
    ensures
        lt_appended_of(lt, promoted.take(i + 1)) == if !has_edge_key(
            lt,
            promoted[i].from,
            promoted[i].to,
        ) {
            lt_appended_of(lt, promoted.take(i)).push(promoted[i])
        } else {
            lt_appended_of(lt, promoted.take(i))
        },
{
    let apred = |e: SynapticEdge| !has_edge_key(lt, e.from, e.to);
    lemma_take_filter_step(promoted, apred, i);
}

/// Properties of the appended part: unique keys, from the promoted edges,
/// none of its keys already in the long-term table.
pub proof fn lemma_appended_props(lt: Seq<SynapticEdge>, promoted: Seq<SynapticEdge>)
    requires
        edge_keys_unique(promoted),
        edges_wf(promoted),
    ensures
        edge_keys_unique(lt_appended_of(lt, promoted)),
        edges_wf(lt_appended_of(lt, promoted)),
        lt_appended_of(lt, promoted).len() <= promoted.len(),
        forall|k: int|
            0 <= k < lt_appended_of(lt, promoted).len() ==> promoted.contains(
                #[trigger] lt_appended_of(lt, promoted)[k],
            ) && !has_edge_key(
                lt,
                lt_appended_of(lt, promoted)[k].from,
                lt_appended_of(lt, promoted)[k].to,
            ),
{
    broadcast use vstd::seq_lib::group_filter_ensures;

    let key = |e: SynapticEdge| (e.from, e.to);
    let apred = |e: SynapticEdge| !has_edge_key(lt, e.from, e.to);
    lemma_filter_keys_distinct(promoted, apred, key);
    let a = lt_appended_of(lt, promoted);
    assert forall|x: int, y: int| 0 <= x < y < a.len() implies !(a[x].from == a[y].from && a[x].to
        == a[y].to) by {
        assert(key(a[x]) != key(a[y]));
    }
    assert forall|k: int| 0 <= k < a.len() implies promoted.contains(#[trigger] a[k])
        && !has_edge_key(lt, a[k].from, a[k].to) && a[k].wf() by {
        assert(apred(a[k]));
        let j = choose|j: int| 0 <= j < promoted.len() && promoted[j] == a[k];
        assert(promoted[j].wf());
    }
}

/// Two edge tables with the same keys pointwise have the same key set.
pub proof fn lemma_keys_pointwise_has(s0: Seq<SynapticEdge>, s1: Seq<SynapticEdge>)
    requires
        s0.len() == s1.len(),
        forall|k: int|
            0 <= k < s1.len() ==> (#[trigger] s1[k]).from == s0[k].from && s1[k].to == s0[k].to,
    ensures
        forall|x: ConceptId, y: ConceptId|
            #[trigger] has_edge_key(s1, x, y) == has_edge_key(s0, x, y),
{
    assert forall|x: ConceptId, y: ConceptId| #[trigger] has_edge_key(s1, x, y) == has_edge_key(
        s0,
        x,
        y,
    ) by {
        if has_edge_key(s0, x, y) {
            let i = edge_index_of(s0, x, y);
            assert(s1[i].from == x && s1[i].to == y);
        }
        if has_edge_key(s1, x, y) {
            let i = edge_index_of(s1, x, y);
            assert(s0[i].from == x && s0[i].to == y);
        }
    }
}

impl MemoryGraph {
    /// Hippocampus-style consolidation.
    ///
    /// Short-term edges are partitioned: those meeting the promotion
    /// criterion move to long-term storage (merging with an existing
    /// long-term edge of the same key by averaging weights, keeping the most
    /// recent access, and summing activation counts); inactive unpromoted
    /// edges are pruned; the rest stay.  Afterwards, short-term edges
    /// touching an overloaded concept suffer interference decay, and the
    /// last-consolidation timestamp is set to `now`.
    pub fn consolidate_memory(&mut self, now: i64) -> (r: ConsolidationStats)
        requires
            old(self).wf(),
        ensures
            final(self).wf(),
            ({
                let st0 = old(self).short_term_edges@;
                let lt0 = old(self).long_term_edges@;
                let cs = old(self).concepts@;
                let thr = old(self).config.consolidation_threshold;
                let promoted = promoted_of(st0, cs, thr, now);
                let kept = kept_of(st0, cs, thr, now);
                let appended = lt_appended_of(lt0, promoted);
                &&& final(self).short_term_edges@ == interfered_of(
                    kept,
                    (old(self).config.decay_rate * 2) as u64,
                )
                &&& final(self).long_term_edges@ == lt_merged_of(lt0, promoted) + appended
                &&& r.promoted_to_long_term == appended.len()
                &&& r.reactivated_connections == promoted.len() - appended.len()
                &&& r.pruned_weak_connections == st0.len() - promoted.len() - kept.len()
                &&& r.total_short_term_before == st0.len()
                &&& r.total_long_term_after == final(self).long_term_edges@.len()
            }),
            final(self).concepts@ == old(self).concepts@,
            final(self).working_memory@ == old(self).working_memory@,
            final(self).config == old(self).config,
            final(self).last_consolidation == now,
    {
        let ghost g0 = *self;
        let ghost st0 = self.short_term_edges@;
        let ghost lt0 = self.long_term_edges@;
        let ghost cs = self.concepts@;
        let thr = self.config.consolidation_threshold;
        let rate2 = self.config.decay_rate * 2;
        let before = self.short_term_edges.len();

        let mut promoted: Vec<SynapticEdge> = Vec::new();
        let mut kept: Vec<SynapticEdge> = Vec::new();
        let mut i: usize = 0;
        while i < self.short_term_edges.len()
            invariant
                i <= st0.len(),
                *self == g0,
                st0 == g0.short_term_edges@,
                cs == g0.concepts@,
                thr == g0.config.consolidation_threshold,
                g0.wf(),
                promoted@ == promoted_of(st0.take(i as int), cs, thr, now),
                kept@ == kept_of(st0.take(i as int), cs, thr, now),
            decreases st0.len() - i,
        {
            proof {
                lemma_promote_partition_step(st0, cs, thr, now, i as int);
            }
            let e = self.short_term_edges[i];
            if self.should_promote_to_long_term(&e, now) {
                promoted.push(e);
            } else if e.is_active() {
                kept.push(e);
            }
            i = i + 1;
        }
        proof {
            assert(st0.take(st0.len() as int) =~= st0);
            lemma_promote_partition_props(st0, cs, thr, now);
            broadcast use vstd::seq_lib::group_filter_ensures;

        }

        let mut new_lt: Vec<SynapticEdge> = Vec::new();
        let mut j: usize = 0;
        while j < self.long_term_edges.len()
            invariant
                j <= lt0.len(),
                self.long_term_edges@ == lt0,
                edges_wf(lt0),
                edge_keys_unique(promoted@),
                edges_wf(promoted@),
                promoted@ == promoted_of(st0, cs, thr, now),
                new_lt@.len() == j,
                forall|k: int| 0 <= k < j ==> new_lt@[k] == lt_merged_of(lt0, promoted@)[k],
            decreases lt0.len() - j,
        {
            let e = self.long_term_edges[j];
            match find_edge(&promoted, e.from, e.to) {
                Some(p) => {
                    proof {
                        lemma_edge_index(promoted@, e.from, e.to, p as int);
                    }
                    let se = promoted[p];
                    proof {
                        assert(lt0[j as int].wf());
                        assert(promoted@[p as int].wf());
                    }
                    let avg = (e.weight.value() + se.weight.value()) / 2;
                    let last = if se.last_accessed > e.last_accessed {
                        se.last_accessed
                    } else {
                        e.last_accessed
                    };
                    let count = if e.activation_count <= u64::MAX - se.activation_count {
                        e.activation_count + se.activation_count
                    } else {
                        u64::MAX
                    };
                    new_lt.push(
                        SynapticEdge {
                            from: e.from,
                            to: e.to,
                            weight: SynapticWeight(avg),
                            created_at: e.created_at,
                            last_accessed: last,
                            activation_count: count,
                        },
                    );
                    proof {
                        assert(new_lt@[j as int] == merged_edge(e, se));
                    }
                },
                None => {
                    new_lt.push(e);
                },
            }
            j = j + 1;
        }
        proof {
            assert(new_lt@ =~= lt_merged_of(lt0, promoted@));
        }

        let mut appended: Vec<SynapticEdge> = Vec::new();
        let mut m: usize = 0;
        while m < promoted.len()
            invariant
                m <= promoted@.len(),
                promoted@ == promoted_of(st0, cs, thr, now),
                new_lt@ == lt_merged_of(lt0, promoted@),
                self.long_term_edges@ == lt0,
                appended@ == lt_appended_of(lt0, promoted@.take(m as int)),
            decreases promoted@.len() - m,
        {
            proof {
                lemma_appended_step(lt0, promoted@, m as int);
                lemma_keys_pointwise_has(lt0, new_lt@);
            }
            let e = promoted[m];
            if find_edge(&new_lt, e.from, e.to).is_none() {
                appended.push(e);
            }
            m = m + 1;
        }
        proof {
            assert(promoted@.take(promoted@.len() as int) =~= promoted@);
        }

        proof {
            lemma_appended_props(lt0, promoted@);
            lemma_partition_counts(st0, cs, thr, now);
            broadcast use vstd::seq_lib::group_filter_ensures;

            assert(appended@.len() <= promoted@.len());
        }
        let appended_count = appended.len();
        let reactivated = promoted.len() - appended_count;
        let pruned = before - promoted.len() - kept.len();

        let mut lt_final = new_lt;
        let mut app2 = appended;
        let ghost appended_view = app2@;
        lt_final.append(&mut app2);
        self.long_term_edges = lt_final;

        let mut new_st: Vec<SynapticEdge> = Vec::new();
        let mut q: usize = 0;
        while q < kept.len()
            invariant
                q <= kept@.len(),
                kept@ == kept_of(st0, cs, thr, now),
                new_st@.len() == q,
                edges_wf(kept@),
                forall|k: int| 0 <= k < q ==> new_st@[k] == interfered_of(kept@, rate2)[k],
            decreases kept@.len() - q,
        {
            let e = kept[q];
            let from_over = is_overloaded(&kept, e.from);
            let to_over = is_overloaded(&kept, e.to);
            if from_over || to_over {
                let mut e2 = e;
                proof {
                    assert(kept@[q as int].wf());
                }
                e2.decay(rate2);
                new_st.push(e2);
            } else {
                new_st.push(e);
            }
            q = q + 1;
        }
        proof {
            assert(new_st@ =~= interfered_of(kept@, rate2));
        }
        self.short_term_edges = new_st;
        self.last_consolidation = now;

        let after = self.long_term_edges.len();
        proof {
            lemma_consolidate_wf(g0, *self, now);
        }
        ConsolidationStats {
            promoted_to_long_term: appended_count,
            pruned_weak_connections: pruned,
            reactivated_connections: reactivated,
            total_short_term_before: before,
            total_long_term_after: after,
        }
    }

    /// Reconsolidation: recalled memories become labile again.  Every
    /// long-term edge incident to a concept in the list moves back to
    /// short-term with its weight scaled by `0.9` and its access time
    /// refreshed.
    pub fn reconsolidate(&mut self, concept_ids: &Vec<ConceptId>, now: i64)
        requires
            old(self).wf(),
        ensures
            final(self).wf(),
            final(self).long_term_edges@ == old(self).long_term_edges@.filter(
                |e: SynapticEdge| !touches_any(e, concept_ids@),
            ),
            final(self).short_term_edges@ == old(self).short_term_edges@ + old(
                self,
            ).long_term_edges@.filter(|e: SynapticEdge| touches_any(e, concept_ids@)).map_values(
                |e: SynapticEdge| labile_edge(e, now),
            ),
            final(self).concepts@ == old(self).concepts@,
            final(self).working_memory@ == old(self).working_memory@,
            final(self).config == old(self).config,
            final(self).last_consolidation == old(self).last_consolidation,
    {
        let ghost g0 = *self;
        let ghost lt0 = self.long_term_edges@;
        let ghost ids = concept_ids@;
        let mut moved: Vec<SynapticEdge> = Vec::new();
        let mut stay: Vec<SynapticEdge> = Vec::new();
        let mut i: usize = 0;
        while i < self.long_term_edges.len()
            invariant
                i <= lt0.len(),
                self.long_term_edges@ == lt0,
                ids == concept_ids@,
                edges_wf(lt0),
                moved@ == lt0.take(i as int).filter(|e: SynapticEdge| touches_any(e, ids)),
                stay@ == lt0.take(i as int).filter(|e: SynapticEdge| !touches_any(e, ids)),
                edges_wf(moved@),
            decreases lt0.len() - i,
        {
            proof {
                lemma_take_filter_step(lt0, |e: SynapticEdge| touches_any(e, ids), i as int);
                lemma_take_filter_step(lt0, |e: SynapticEdge| !touches_any(e, ids), i as int);
            }
            let e = self.long_term_edges[i];
            proof {
                assert(lt0[i as int].wf());
            }
            if touches_any_exec(&e, concept_ids) {
                let ghost mv0 = moved@;
                moved.push(e);
                proof {
                    assert forall|k: int| 0 <= k < moved@.len() implies (
                    #[trigger] moved@[k]).wf() by {
                        if k < mv0.len() {
                            assert(moved@[k] == mv0[k]);
                        } else {
                            assert(moved@[k] == e);
                        }
                    }
                }
            } else {
                stay.push(e);
            }
            i = i + 1;
        }
        proof {
            assert(lt0.take(lt0.len() as int) =~= lt0);
        }
        let ghost moved_view = moved@;
        let mut relabiled: Vec<SynapticEdge> = Vec::new();
        let mut m: usize = 0;
        while m < moved.len()
            invariant
                m <= moved_view.len(),
                moved@ == moved_view,
                edges_wf(moved_view),
                relabiled@.len() == m,
                forall|k: int|
                    0 <= k < m ==> relabiled@[k] == labile_edge(moved_view[k], now),
            decreases moved_view.len() - m,
        {
            let e = moved[m];
            proof {
                assert(moved_view[m as int].wf());
                assert(e.weight.0 * 9 <= 9_000_000) by (nonlinear_arith)
                    requires
                        e.weight.0 <= 1_000_000,
                ;
            }
            let w: u64 = e.weight.value() * 9 / 10;
            relabiled.push(
                SynapticEdge {
                    from: e.from,
                    to: e.to,
                    weight: SynapticWeight(w),
                    created_at: e.created_at,
                    last_accessed: now,
                    activation_count: e.activation_count,
                },
            );
            m = m + 1;
        }
        proof {
            assert(relabiled@ =~= moved_view.map_values(|e: SynapticEdge| labile_edge(e, now)));
        }
        let mut app = relabiled;
        self.long_term_edges = stay;
        self.short_term_edges.append(&mut app);
        proof {
            lemma_reconsolidate_wf(g0, *self, ids, now);
        }
    }

    /// Manually trigger consolidation regardless of timing.
    pub fn force_consolidation(&mut self, now: i64) -> (r: ConsolidationStats)
        requires
            old(self).wf(),
        ensures
            final(self).wf(),
            ({
                let st0 = old(self).short_term_edges@;
                let lt0 = old(self).long_term_edges@;
                let cs = old(self).concepts@;
                let thr = old(self).config.consolidation_threshold;
                let promoted = promoted_of(st0, cs, thr, now);
                let kept = kept_of(st0, cs, thr, now);
                let appended = lt_appended_of(lt0, promoted);
                &&& final(self).short_term_edges@ == interfered_of(
                    kept,
                    (old(self).config.decay_rate * 2) as u64,
                )
                &&& final(self).long_term_edges@ == lt_merged_of(lt0, promoted) + appended
                &&& r.promoted_to_long_term == appended.len()
            }),
            final(self).concepts@ == old(self).concepts@,
            final(self).working_memory@ == old(self).working_memory@,
            final(self).config == old(self).config,
            final(self).last_consolidation == now,
    {
        self.consolidate_memory(now)
    }
}

/// Whether an edge is incident to any concept in the list.
pub open spec fn touches_any(e: SynapticEdge, ids: Seq<ConceptId>) -> bool {
    exists|i: int| 0 <= i < ids.len() && touches(e, ids[i])
}

/// A reconsolidated edge: weight scaled by `0.9`, access time refreshed.
pub open spec fn labile_edge(e: SynapticEdge, now: i64) -> SynapticEdge {
    SynapticEdge {
        weight: SynapticWeight(((e.weight.0 * 9) as int / 10) as u64),
        last_accessed: now,
        ..e
    }
}

/// Whether the edge is incident to any listed concept.
pub fn touches_any_exec(e: &SynapticEdge, ids: &Vec<ConceptId>) -> (r: bool)
    ensures
        r == touches_any(*e, ids@),
{
    let mut i: usize = 0;
    while i < ids.len()
        invariant
            i <= ids@.len(),
            forall|j: int| 0 <= j < i ==> !touches(*e, ids@[j]),
        decreases ids@.len() - i,
    {
        if e.from == ids[i] || e.to == ids[i] {
            return true;
        }
        i = i + 1;
    }
    false
}

/// Moving the labile long-term edges back to short-term keeps every graph
/// invariant.
pub proof fn lemma_reconsolidate_wf(
    g0: MemoryGraph,
    g1: MemoryGraph,
    ids: Seq<ConceptId>,
    now: i64,
)
    requires
        g0.wf(),
        g1.concepts@ == g0.concepts@,
        g1.working_memory@ == g0.working_memory@,
        g1.config == g0.config,
        g1.long_term_edges@ == g0.long_term_edges@.filter(
            |e: SynapticEdge| !touches_any(e, ids),
        ),
        g1.short_term_edges@ == g0.short_term_edges@ + g0.long_term_edges@.filter(
            |e: SynapticEdge| touches_any(e, ids),
        ).map_values(|e: SynapticEdge| labile_edge(e, now)),
    ensures
        g1.wf(),
{
    broadcast use vstd::seq_lib::group_filter_ensures;

    let st0 = g0.short_term_edges@;
    let lt0 = g0.long_term_edges@;
    let key = |e: SynapticEdge| (e.from, e.to);
    let tpred = |e: SynapticEdge| touches_any(e, ids);
    let spred = |e: SynapticEdge| !touches_any(e, ids);
    let moved = lt0.filter(tpred);
    let stay = lt0.filter(spred);
    let mapped = moved.map_values(|e: SynapticEdge| labile_edge(e, now));
    let st1 = g1.short_term_edges@;
    let lt1 = g1.long_term_edges@;
    lemma_filter_keys_distinct(lt0, tpred, key);
    lemma_filter_keys_distinct(lt0, spred, key);
    assert(st1 == st0 + mapped);
    assert(mapped.len() == moved.len());
    assert forall|k: int| 0 <= k < mapped.len() implies (#[trigger] mapped[k]).from
        == moved[k].from && mapped[k].to == moved[k].to && mapped[k].wf() && lt0.contains(
        moved[k],
    ) by {
        assert(mapped[k] == labile_edge(moved[k], now));
        let j = choose|j: int| 0 <= j < lt0.len() && lt0[j] == moved[k];
        assert(lt0[j].wf());
        assert(moved[k].weight.0 * 9 / 10 <= moved[k].weight.0 * 9 / 9) by (nonlinear_arith)
            requires
                moved[k].weight.0 >= 0,
        ;
    }
    assert forall|a: int, b: int| 0 <= a < b < lt1.len() implies !(lt1[a].from == lt1[b].from
        && lt1[a].to == lt1[b].to) by {
        assert(key(lt1[a]) != key(lt1[b]));
    }
    assert forall|k: int| 0 <= k < lt1.len() implies (#[trigger] lt1[k]).wf() && has_concept_id(
        g1.concepts@,
        lt1[k].from,
    ) && has_concept_id(g1.concepts@, lt1[k].to) by {
        assert(lt0.contains(lt1[k]));
        let j = choose|j: int| 0 <= j < lt0.len() && lt0[j] == lt1[k];
        assert(lt0[j].wf());
        assert(has_concept_id(g0.concepts@, lt0[j].from));
        assert(has_concept_id(g0.concepts@, lt0[j].to));
    }
    // Short-term uniqueness: old keys are unique, moved keys are unique, and
    // a moved key cannot be an old short-term key by zone disjointness.
    assert forall|a: int, b: int| 0 <= a < b < st1.len() implies !(st1[a].from == st1[b].from
        && st1[a].to == st1[b].to) by {
        if b < st0.len() {
            assert(st1[a] == st0[a] && st1[b] == st0[b]);
        } else if a < st0.len() {
            assert(st1[a] == st0[a]);
            assert(st1[b] == mapped[b - st0.len()]);
            let mk = moved[b - st0.len()];
            assert(st1[b].from == mk.from && st1[b].to == mk.to);
            let j = choose|j: int| 0 <= j < lt0.len() && lt0[j] == mk;
            if st1[a].from == st1[b].from && st1[a].to == st1[b].to {
                assert(has_edge_key(lt0, st0[a].from, st0[a].to)) by {
                    assert(lt0[j].from == st0[a].from && lt0[j].to == st0[a].to);
                }
            }
        } else {
            let ma = moved[a - st0.len()];
            let mb = moved[b - st0.len()];
            assert(st1[a].from == ma.from && st1[a].to == ma.to);
            assert(st1[b].from == mb.from && st1[b].to == mb.to);
            assert(key(ma) != key(mb));
        }
    }
    assert forall|k: int| 0 <= k < st1.len() implies (#[trigger] st1[k]).wf() && has_concept_id(
        g1.concepts@,
        st1[k].from,
    ) && has_concept_id(g1.concepts@, st1[k].to) by {
        if k < st0.len() {
            assert(st1[k] == st0[k]);
            assert(has_concept_id(g0.concepts@, st0[k].from));
            assert(has_concept_id(g0.concepts@, st0[k].to));
        } else {
            let mk = moved[k - st0.len()];
            assert(st1[k] == mapped[k - st0.len()]);
            let j = choose|j: int| 0 <= j < lt0.len() && lt0[j] == mk;
            assert(has_concept_id(g0.concepts@, lt0[j].from));
            assert(has_concept_id(g0.concepts@, lt0[j].to));
        }
    }
    // Zone disjointness.
    assert forall|k: int| 0 <= k < st1.len() implies !has_edge_key(
        lt1,
        (#[trigger] st1[k]).from,
        st1[k].to,
    ) by {
        if has_edge_key(lt1, st1[k].from, st1[k].to) {
            let m = edge_index_of(lt1, st1[k].from, st1[k].to);
            assert(lt0.contains(lt1[m]));
            let j = choose|j: int| 0 <= j < lt0.len() && lt0[j] == lt1[m];
            assert(spred(lt1[m]));
            if k < st0.len() {
                assert(st1[k] == st0[k]);
                assert(!has_edge_key(lt0, st0[k].from, st0[k].to));
                assert(lt0[j].from == st0[k].from && lt0[j].to == st0[k].to);
            } else {
                let mk = moved[k - st0.len()];
                assert(st1[k].from == mk.from && st1[k].to == mk.to);
                assert(tpred(mk));
                assert(lt0.contains(mk));
                let j2 = choose|j2: int| 0 <= j2 < lt0.len() && lt0[j2] == mk;
                assert(lt0[j].from == mk.from && lt0[j].to == mk.to);
                if j != j2 {
                    assert(false);
                }
            }
        }
    }
}

/// The three parts of the promotion partition cover the zone: the pruned
/// part's size is what the promoted and kept parts leave.
pub proof fn lemma_partition_counts(st: Seq<SynapticEdge>, cs: Seq<Concept>, thr: u64, now: i64)
    ensures
        promoted_of(st, cs, thr, now).len() + kept_of(st, cs, thr, now).len() <= st.len(),
    decreases st.len(),
{
    reveal(Seq::filter);
    broadcast use vstd::seq_lib::group_filter_ensures;

    if st.len() == 0 {
    } else {
        lemma_partition_counts(st.drop_last(), cs, thr, now);
        let d = st.drop_last();
        assert(promoted_of(st, cs, thr, now).len() <= promoted_of(d, cs, thr, now).len() + 1);
        assert(kept_of(st, cs, thr, now).len() <= kept_of(d, cs, thr, now).len() + 1);
        if promote_criterion(st.last(), cs, thr, now) {
            assert(kept_of(st, cs, thr, now) == kept_of(d, cs, thr, now));
        } else {
            assert(promoted_of(st, cs, thr, now) == promoted_of(d, cs, thr, now));
        }
    }
}

/// The consolidated graph keeps every invariant.
pub proof fn lemma_consolidate_wf(g0: MemoryGraph, g1: MemoryGraph, now: i64)
    requires
        g0.wf(),
        g1.concepts@ == g0.concepts@,
        g1.working_memory@ == g0.working_memory@,
        g1.config == g0.config,
        ({
            let st0 = g0.short_term_edges@;
            let lt0 = g0.long_term_edges@;
            let cs = g0.concepts@;
            let thr = g0.config.consolidation_threshold;
            let promoted = promoted_of(st0, cs, thr, now);
            let kept = kept_of(st0, cs, thr, now);
            &&& g1.short_term_edges@ == interfered_of(kept, (g0.config.decay_rate * 2) as u64)
            &&& g1.long_term_edges@ == lt_merged_of(lt0, promoted) + lt_appended_of(lt0, promoted)
        }),
    ensures
        g1.wf(),
{
    let st0 = g0.short_term_edges@;
    let lt0 = g0.long_term_edges@;
    let cs = g0.concepts@;
    let thr = g0.config.consolidation_threshold;
    let rate2 = (g0.config.decay_rate * 2) as u64;
    let promoted = promoted_of(st0, cs, thr, now);
    let kept = kept_of(st0, cs, thr, now);
    let merged = lt_merged_of(lt0, promoted);
    let appended = lt_appended_of(lt0, promoted);
    let st1 = g1.short_term_edges@;
    let lt1 = g1.long_term_edges@;
    lemma_promote_partition_props(st0, cs, thr, now);
    lemma_appended_props(lt0, promoted);
    assert(merged.len() == lt0.len());
    assert forall|k: int| 0 <= k < merged.len() implies (#[trigger] merged[k]).from == lt0[k].from
        && merged[k].to == lt0[k].to && merged[k].wf() by {
        if has_edge_key(promoted, lt0[k].from, lt0[k].to) {
            let se = edge_lookup(promoted, lt0[k].from, lt0[k].to);
            let si = edge_index_of(promoted, lt0[k].from, lt0[k].to);
            assert(promoted[si].wf());
            assert(lt0[k].wf());
        }
    }
    lemma_keys_pointwise_has(lt0, merged);

    // Short-term invariants.
    assert(st1.len() == kept.len());
    assert forall|k: int| 0 <= k < st1.len() implies (#[trigger] st1[k]).from == kept[k].from
        && st1[k].to == kept[k].to && st1[k].wf() by {
        if overloaded(kept, kept[k].from) || overloaded(kept, kept[k].to) {
            assert(kept[k].wf());
            lemma_weaken_bounds(kept[k].weight.0, rate2);
        } else {
            assert(kept[k].wf());
        }
    }
    assert forall|a: int, b: int| 0 <= a < b < st1.len() implies !(st1[a].from == st1[b].from
        && st1[a].to == st1[b].to) by {
        assert(st1[a].from == kept[a].from && st1[a].to == kept[a].to);
        assert(st1[b].from == kept[b].from && st1[b].to == kept[b].to);
    }
    assert forall|k: int| 0 <= k < st1.len() implies has_concept_id(
        g1.concepts@,
        (#[trigger] st1[k]).from,
    ) && has_concept_id(g1.concepts@, st1[k].to) by {
        assert(st0.contains(kept[k]));
        let j = choose|j: int| 0 <= j < st0.len() && st0[j] == kept[k];
        assert(has_concept_id(cs, st0[j].from) && has_concept_id(cs, st0[j].to));
        assert(st1[k].from == kept[k].from && st1[k].to == kept[k].to);
    }

    // Long-term invariants.
    assert forall|a: int, b: int| 0 <= a < b < lt1.len() implies !(lt1[a].from == lt1[b].from
        && lt1[a].to == lt1[b].to) by {
        if b < merged.len() {
            assert(lt1[a] == merged[a] && lt1[b] == merged[b]);
            assert(merged[a].from == lt0[a].from && merged[a].to == lt0[a].to);
            assert(merged[b].from == lt0[b].from && merged[b].to == lt0[b].to);
        } else if a < merged.len() {
            assert(lt1[a] == merged[a]);
            assert(lt1[b] == appended[b - merged.len()]);
            assert(!has_edge_key(lt0, appended[b - merged.len()].from, appended[b
                - merged.len()].to));
            assert(merged[a].from == lt0[a].from && merged[a].to == lt0[a].to);
            if lt1[a].from == lt1[b].from && lt1[a].to == lt1[b].to {
                crate::graph::lemma_edge_index(lt0, lt0[a].from, lt0[a].to, a);
            }
        } else {
            assert(lt1[a] == appended[a - merged.len()]);
            assert(lt1[b] == appended[b - merged.len()]);
        }
    }
    assert forall|k: int| 0 <= k < lt1.len() implies (#[trigger] lt1[k]).wf() && has_concept_id(
        g1.concepts@,
        lt1[k].from,
    ) && has_concept_id(g1.concepts@, lt1[k].to) by {
        if k < merged.len() {
            assert(lt1[k] == merged[k]);
            assert(has_concept_id(cs, lt0[k].from) && has_concept_id(cs, lt0[k].to));
        } else {
            let e = appended[k - merged.len()];
            assert(lt1[k] == e);
            assert(promoted.contains(e));
            let j = choose|j: int| 0 <= j < promoted.len() && promoted[j] == e;
            assert(st0.contains(promoted[j]));
            let j2 = choose|j2: int| 0 <= j2 < st0.len() && st0[j2] == e;
            assert(has_concept_id(cs, st0[j2].from) && has_concept_id(cs, st0[j2].to));
        }
    }

    // Disjointness: a kept short-term key is neither an old long-term key
    // nor a promoted (hence appended) key.
    assert forall|k: int| 0 <= k < st1.len() implies !has_edge_key(
        lt1,
        (#[trigger] st1[k]).from,
        st1[k].to,
    ) by {
        let e = kept[k];
        assert(st1[k].from == e.from && st1[k].to == e.to);
        assert(st0.contains(e));
        let j = choose|j: int| 0 <= j < st0.len() && st0[j] == e;
        assert(!has_edge_key(lt0, e.from, e.to));
        if has_edge_key(lt1, e.from, e.to) {
            let m = edge_index_of(lt1, e.from, e.to);
            if m < merged.len() {
                assert(lt1[m] == merged[m]);
                assert(lt0[m].from == e.from && lt0[m].to == e.to);
            } else {
                let ae = appended[m - merged.len()];
                assert(lt1[m] == ae);
                assert(promoted.contains(ae));
                let p = choose|p: int| 0 <= p < promoted.len() && promoted[p] == ae;
                assert(st0.contains(promoted[p]));
                let j2 = choose|j2: int| 0 <= j2 < st0.len() && st0[j2] == ae;
                assert(st0[j2].from == e.from && st0[j2].to == e.to);
                assert(st0[j].from == e.from && st0[j].to == e.to);
                if j != j2 {
                    assert(false);
                } else {
                    assert(ae == e);
                    assert(promote_criterion(e, cs, thr, now));
                    assert(!promote_criterion(e, cs, thr, now));
                }
            }
        }
    }
}

impl MemoryGraph {
    /// Whether both endpoints of a connection are frequently accessed.
    pub fn are_concepts_important(&self, concept_a: ConceptId, concept_b: ConceptId) -> (r: bool)
        requires
            self.wf(),
        ensures
            r == (concept_important(self.concepts@, concept_a) && concept_important(
                self.concepts@,
                concept_b,
            )),
    {
        let a_ok = match find_concept(&self.concepts, concept_a) {
            Some(i) => {
                proof {
                    crate::graph::lemma_concept_index(self.concepts@, concept_a, i as int);
                }
                self.concepts[i].access_count >= 5
            },
            None => false,
        };
        let b_ok = match find_concept(&self.concepts, concept_b) {
            Some(i) => {
                proof {
                    crate::graph::lemma_concept_index(self.concepts@, concept_b, i as int);
                }
                self.concepts[i].access_count >= 5
            },
            None => false,
        };
        a_ok && b_ok
    }

    /// Whether a short-term edge qualifies for long-term storage.
    pub fn should_promote_to_long_term(&self, edge: &SynapticEdge, now: i64) -> (r: bool)
        requires
            self.wf(),
        ensures
            r == promote_criterion(
                *edge,
                self.concepts@,
                self.config.consolidation_threshold,
                now,
            ),
    {
        let mut met: u64 = 0;
        if edge.weight.value() >= self.config.consolidation_threshold {
            met = met + 1;
        }
        if edge.activation_count >= 3 {
            met = met + 1;
        }
        if (edge.last_accessed as i128) > (now as i128) - 7 * 86400 {
            met = met + 1;
        }
        if (edge.created_at as i128) < (now as i128) - 3600 {
            met = met + 1;
        }
        if self.are_concepts_important(edge.from, edge.to) {
            met = met + 1;
        }
        met >= 3
    }
}

/// The common distinct lower-cased tokens of two texts, in first-occurrence
/// order of the first text.
pub open spec fn common_tokens(a: Seq<char>, b: Seq<char>) -> Seq<Seq<u8>> {
    crate::text::distinct_tokens(vstd::utf8::encode_utf8(crate::text::lower_of(a))).filter(
        |t: Seq<u8>|
            crate::text::distinct_tokens(vstd::utf8::encode_utf8(crate::text::lower_of(b))).contains(
                t,
            ),
    )
}

/// The pattern of an edge: the common tokens of its endpoints' contents.
pub open spec fn edge_pattern(cs: Seq<Concept>, e: SynapticEdge) -> Seq<Seq<u8>> {
    if has_concept_id(cs, e.from) && has_concept_id(cs, e.to) {
        common_tokens(
            concept_lookup(cs, e.from).content@,
            concept_lookup(cs, e.to).content@,
        )
    } else {
        Seq::empty()
    }
}

/// Two patterns are the same when they hold the same tokens.
pub open spec fn same_pattern(p: Seq<Seq<u8>>, q: Seq<Seq<u8>>) -> bool {
    p.to_set() == q.to_set()
}

/// The summed weight of the first `n` long-term edges sharing the pattern.
pub open spec fn pattern_strength(
    lt: Seq<SynapticEdge>,
    cs: Seq<Concept>,
    p: Seq<Seq<u8>>,
    n: int,
) -> int
    decreases n,
{
    if n <= 0 {
        0
    } else {
        pattern_strength(lt, cs, p, n - 1) + if edge_pattern(cs, lt[n - 1]).len() >= 2
            && same_pattern(edge_pattern(cs, lt[n - 1]), p) {
            lt[n - 1].weight.0 as int
        } else {
            0
        }
    }
}

/// The long-term zone after schema consolidation: every edge whose pattern
/// has at least two tokens and whose pattern's summed weight exceeds `5.0`
/// is strengthened with half the learning rate.
pub open spec fn schema_boosted(
    lt: Seq<SynapticEdge>,
    cs: Seq<Concept>,
    lr: u64,
) -> Seq<SynapticEdge> {
    Seq::new(
        lt.len(),
        |i: int|
            {
                let p = edge_pattern(cs, lt[i]);
                if p.len() >= 2 && pattern_strength(lt, cs, p, lt.len() as int) > 5_000_000 {
                    SynapticEdge {
                        weight: SynapticWeight(
                            crate::types::strengthen_val(lt[i].weight.0, ((lr / 2) as u64)),
                        ),
                        ..lt[i]
                    }
                } else {
                    lt[i]
                }
            },
    )
}

/// Copy a byte string.
fn clone_bytes(v: &Vec<u8>) -> (r: Vec<u8>)
    ensures
        r@ == v@,
{
    let mut out: Vec<u8> = Vec::new();
    let mut i: usize = 0;
    while i < v.len()
        invariant
            i <= v@.len(),
            out@ =~= v@.take(i as int),
        decreases v@.len() - i,
    {
        out.push(v[i]);
        proof {
            assert(out@ =~= v@.take(i as int + 1));
        }
        i = i + 1;
    }
    proof {
        assert(v@.take(v@.len() as int) =~= v@);
    }
    out
}

/// Whether two patterns hold the same tokens.
fn pattern_set_eq(p: &Vec<Vec<u8>>, q: &Vec<Vec<u8>>) -> (r: bool)
    ensures
        r == same_pattern(p.deep_view(), q.deep_view()),
{
    broadcast use vstd::seq_lib::group_seq_lib_default;

    let mut i: usize = 0;
    while i < p.len()
        invariant
            i <= p@.len(),
            p@.len() == p.deep_view().len(),
            forall|k: int| 0 <= k < i ==> q.deep_view().contains(#[trigger] p.deep_view()[k]),
        decreases p@.len() - i,
    {
        if !crate::text::bytes_in_list(q, &p[i]) {
            proof {
                broadcast use vstd::seq_lib::group_seq_lib_default;

                assert(p.deep_view()[i as int] == p@[i as int]@);
                assert(p.deep_view().to_set().contains(p.deep_view()[i as int])) by {
                    assert(p.deep_view().contains(p.deep_view()[i as int]));
                }
                if q.deep_view().to_set().contains(p.deep_view()[i as int]) {
                    assert(q.deep_view().contains(p.deep_view()[i as int]));
                }
            }
            return false;
        }
        proof {
            assert(p.deep_view()[i as int] == p@[i as int]@);
        }
        i = i + 1;
    }
    let mut j: usize = 0;
    while j < q.len()
        invariant
            j <= q@.len(),
            q@.len() == q.deep_view().len(),
            forall|k: int| 0 <= k < p.deep_view().len() ==> q.deep_view().contains(
                #[trigger] p.deep_view()[k],
            ),
            forall|k: int| 0 <= k < j ==> p.deep_view().contains(#[trigger] q.deep_view()[k]),
        decreases q@.len() - j,
    {
        if !crate::text::bytes_in_list(p, &q[j]) {
            proof {
                broadcast use vstd::seq_lib::group_seq_lib_default;

                assert(q.deep_view()[j as int] == q@[j as int]@);
                assert(q.deep_view().to_set().contains(q.deep_view()[j as int])) by {
                    assert(q.deep_view().contains(q.deep_view()[j as int]));
                }
                if p.deep_view().to_set().contains(q.deep_view()[j as int]) {
                    assert(p.deep_view().contains(q.deep_view()[j as int]));
                }
            }
            return false;
        }
        proof {
            assert(q.deep_view()[j as int] == q@[j as int]@);
        }
        j = j + 1;
    }
    proof {
        broadcast use vstd::seq_lib::group_seq_lib_default;

        assert(p.deep_view().to_set() =~= q.deep_view().to_set()) by {
            assert forall|t: Seq<u8>| p.deep_view().to_set().contains(t) implies
                q.deep_view().to_set().contains(t) by {
                assert(p.deep_view().contains(t));
                let k = choose|k: int| 0 <= k < p.deep_view().len() && p.deep_view()[k] == t;
                assert(q.deep_view().contains(p.deep_view()[k]));
            }
            assert forall|t: Seq<u8>| q.deep_view().to_set().contains(t) implies
                p.deep_view().to_set().contains(t) by {
                assert(q.deep_view().contains(t));
                let k = choose|k: int| 0 <= k < q.deep_view().len() && q.deep_view()[k] == t;
                assert(p.deep_view().contains(q.deep_view()[k]));
            }
        }
    }
    true
}

impl MemoryGraph {
    /// The pattern of two contents: their common distinct lower-cased
    /// tokens, kept when there are at least two of them.
    pub fn extract_pattern(&self, content_a: &String, content_b: &String) -> (r: Vec<Vec<u8>>)
        ensures
            r.deep_view() == common_tokens(content_a@, content_b@),
    {
        let la = crate::text::lowercase(content_a.as_str());
        let lb = crate::text::lowercase(content_b.as_str());
        let sa = la.as_str();
        let sb = lb.as_str();
        let ta = crate::text::tokenize_distinct(sa, 0);
        let tb = crate::text::tokenize_distinct(sb, 0);
        proof {
            assert(sa.spec_bytes() == vstd::utf8::encode_utf8(la@));
            assert(sb.spec_bytes() == vstd::utf8::encode_utf8(lb@));
        }
        let ghost tav = ta.deep_view();
        let ghost tbv = tb.deep_view();
        let mut out: Vec<Vec<u8>> = Vec::new();
        let mut i: usize = 0;
        while i < ta.len()
            invariant
                i <= tav.len(),
                tav == ta.deep_view(),
                tbv == tb.deep_view(),
                ta@.len() == tav.len(),
                out.deep_view() == tav.take(i as int).filter(
                    |t: Seq<u8>| tbv.contains(t),
                ),
            decreases tav.len() - i,
        {
            proof {
                crate::graph::lemma_take_filter_step(
                    tav,
                    |t: Seq<u8>| tbv.contains(t),
                    i as int,
                );
                assert(ta.deep_view()[i as int] == ta@[i as int]@);
            }
            if crate::text::bytes_in_list(&tb, &ta[i]) {
                let ghost out0 = out.deep_view();
                let copy = clone_bytes(&ta[i]);
                out.push(copy);
                proof {
                    assert(out.deep_view() =~~= out0.push(tav[i as int]));
                }
            }
            i = i + 1;
        }
        proof {
            assert(tav.take(tav.len() as int) =~= tav);
        }
        out
    }

    /// Schema consolidation: for every long-term edge, derive the pattern of
    /// its endpoints' contents; edges whose pattern holds at least two tokens
    /// and whose pattern's summed weight across the zone exceeds `5.0` are
    /// strengthened with half the learning rate.
    pub fn schema_consolidation(&mut self)
        requires
            old(self).wf(),
        ensures
            final(self).wf(),
            final(self).long_term_edges@ == schema_boosted(
                old(self).long_term_edges@,
                old(self).concepts@,
                old(self).config.learning_rate,
            ),
            final(self).concepts@ == old(self).concepts@,
            final(self).short_term_edges@ == old(self).short_term_edges@,
            final(self).working_memory@ == old(self).working_memory@,
            final(self).config == old(self).config,
            final(self).last_consolidation == old(self).last_consolidation,
    {
        let ghost g0 = *self;
        let ghost lt0 = self.long_term_edges@;
        let ghost cs = self.concepts@;
        let lr = self.config.learning_rate;
        let n = self.long_term_edges.len();
        let mut patterns: Vec<Vec<Vec<u8>>> = Vec::new();
        let mut i: usize = 0;
        while i < n
            invariant
                i <= n,
                *self == g0,
                n == lt0.len(),
                lt0 == self.long_term_edges@,
                cs == self.concepts@,
                g0.wf(),
                patterns@.len() == i,
                forall|k: int|
                    0 <= k < i ==> (#[trigger] patterns@[k]).deep_view() == edge_pattern(
                        cs,
                        lt0[k],
                    ),
            decreases n - i,
        {
            let e = self.long_term_edges[i];
            proof {
                assert(has_concept_id(cs, e.from) && has_concept_id(cs, e.to));
            }
            let fi = match find_concept(&self.concepts, e.from) {
                Some(fi) => fi,
                None => {
                    proof {
                        assert(false);
                    }
                    0
                },
            };
            let ti = match find_concept(&self.concepts, e.to) {
                Some(ti) => ti,
                None => {
                    proof {
                        assert(false);
                    }
                    0
                },
            };
            proof {
                crate::graph::lemma_concept_index(cs, e.from, fi as int);
                crate::graph::lemma_concept_index(cs, e.to, ti as int);
            }
            let from_content = self.concepts[fi].content.clone();
            let to_content = self.concepts[ti].content.clone();
            let pat = self.extract_pattern(&from_content, &to_content);
            patterns.push(pat);
            i = i + 1;
        }
        let ghost pats = patterns@;
        let mut boosted: Vec<SynapticEdge> = Vec::new();
        let mut m: usize = 0;
        while m < n
            invariant
                m <= n,
                *self == g0,
                n == lt0.len(),
                lt0 == self.long_term_edges@,
                cs == self.concepts@,
                lr == g0.config.learning_rate,
                g0.wf(),
                patterns@ == pats,
                pats.len() == n,
                forall|k: int|
                    0 <= k < n ==> (#[trigger] pats[k]).deep_view() == edge_pattern(cs, lt0[k]),
                boosted@.len() == m,
                forall|k: int| 0 <= k < m ==> boosted@[k] == schema_boosted(lt0, cs, lr)[k],
            decreases n - m,
        {
            let e = self.long_term_edges[m];
            let plen = patterns[m].len();
            let mut strength: u128 = 0;
            let mut j: usize = 0;
            while j < n
                invariant
                    j <= n,
                    m < n,
                    *self == g0,
                    n == lt0.len(),
                    lt0 == self.long_term_edges@,
                    cs == self.concepts@,
                    g0.wf(),
                    patterns@ == pats,
                    pats.len() == n,
                    forall|k: int|
                        0 <= k < n ==> (#[trigger] pats[k]).deep_view() == edge_pattern(
                            cs,
                            lt0[k],
                        ),
                    strength == pattern_strength(
                        lt0,
                        cs,
                        pats[m as int].deep_view(),
                        j as int,
                    ),
                    strength <= (j as int) * 1_000_000,
                decreases n - j,
            {
                proof {
                    assert(lt0[j as int].wf());
                }
                let cond = patterns[j].len() >= 2 && pattern_set_eq(&patterns[j], &patterns[m]);
                if cond {
                    strength = strength + (self.long_term_edges[j].weight.value() as u128);
                }
                proof {
                    assert((pats[j as int]).deep_view().len() == patterns@[j as int]@.len());
                }
                j = j + 1;
            }
            let boost = plen >= 2 && strength > 5_000_000;
            proof {
                assert((pats[m as int]).deep_view().len() == patterns@[m as int]@.len());
            }
            if boost {
                let mut w = e.weight;
                proof {
                    assert(lt0[m as int].wf());
                }
                w.strengthen(lr / 2);
                boosted.push(SynapticEdge { weight: w, ..e });
            } else {
                boosted.push(e);
            }
            proof {
                assert(boosted@[m as int] == schema_boosted(lt0, cs, lr)[m as int]);
            }
            m = m + 1;
        }
        proof {
            assert(boosted@ =~= schema_boosted(lt0, cs, lr));
        }
        self.long_term_edges = boosted;
        proof {
            assert forall|k: int| 0 <= k < self.long_term_edges@.len() implies (
            #[trigger] self.long_term_edges@[k]).from == lt0[k].from
                && self.long_term_edges@[k].to == lt0[k].to && self.long_term_edges@[k].wf() by {
                let p = edge_pattern(cs, lt0[k]);
                if p.len() >= 2 && pattern_strength(lt0, cs, p, lt0.len() as int) > 5_000_000 {
                    crate::types::lemma_strengthen_bounds(lt0[k].weight.0, ((lr / 2) as u64));
                    assert(lt0[k].wf());
                } else {
                    assert(lt0[k].wf());
                }
            }
            assert forall|a: int, b: int| 0 <= a < b < self.long_term_edges@.len() implies !(
            self.long_term_edges@[a].from == self.long_term_edges@[b].from
                && self.long_term_edges@[a].to == self.long_term_edges@[b].to) by {
                assert(self.long_term_edges@[a].from == lt0[a].from);
                assert(self.long_term_edges@[b].from == lt0[b].from);
                assert(self.long_term_edges@[a].to == lt0[a].to);
                assert(self.long_term_edges@[b].to == lt0[b].to);
            }
            crate::plasticity::lemma_zone_keys_equal_wf(g0, *self);
        }
    }
}

} // verus!
