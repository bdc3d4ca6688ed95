//! Synaptic plasticity: long-term depression and potentiation, Hebbian and
//! competitive learning, and the sleep cycle.

use vstd::prelude::*;
use crate::types::{ConceptId, SynapticEdge, SynapticWeight, activated_edge, decayed_edge,
    strengthen_val, weaken_val, weight_active, lemma_strengthen_bounds, lemma_weaken_bounds, UNIT};
use crate::graph::{MemoryGraph, edge_keys_unique, edges_wf,
    has_edge_key, edge_index_of, edge_lookup, has_concept_id, wm_keys_unique, keys_distinct,
    lemma_filter_keys_distinct, lemma_take_filter_step, lemma_edge_index, lemma_edges_update,
    touches, strengthen_incident, strengthen_incident_edges, find_edge};

verus! {

/// One decay sweep: every edge weakened with `rate`, edges that fall inactive
/// dropped.
pub open spec fn ltd_pass(s: Seq<SynapticEdge>, rate: u64) -> Seq<SynapticEdge> {
    s.map_values(|e: SynapticEdge| decayed_edge(e, rate)).filter(
        |e: SynapticEdge| weight_active(e.weight.0),
    )
}

/// One step of the decay sweep over a growing prefix.
pub proof fn lemma_ltd_pass_step(s: Seq<SynapticEdge>, rate: u64, i: int)
    requires
        0 <= i < s.len(),
    ensures
        ltd_pass(s.take(i + 1), rate) == ({
            let d = decayed_edge(s[i], rate);
            if weight_active(d.weight.0) {
                ltd_pass(s.take(i), rate).push(d)
            } else {
                ltd_pass(s.take(i), rate)
            }
        }),
{
    let f = |e: SynapticEdge| decayed_edge(e, rate);
    let pred = |e: SynapticEdge| weight_active(e.weight.0);
    let tk = s.take(i).map_values(f);
    let tk1 = s.take(i + 1).map_values(f);
    assert(tk1 =~= tk.push(f(s[i])));
    lemma_push_filter(tk, f(s[i]), pred);
}

/// The decay sweep keeps keys unique and well formed, and introduces no new
/// key.
pub proof fn lemma_ltd_pass_keys(s0: Seq<SynapticEdge>, rate: u64)
    requires
        edge_keys_unique(s0),
        edges_wf(s0),
    ensures
        edge_keys_unique(ltd_pass(s0, rate)),
        edges_wf(ltd_pass(s0, rate)),
        forall|x: ConceptId, y: ConceptId|
            #[trigger] has_edge_key(ltd_pass(s0, rate), x, y) ==> has_edge_key(s0, x, y),
{
    let f = |e: SynapticEdge| decayed_edge(e, rate);
    let pred = |e: SynapticEdge| weight_active(e.weight.0);
    let key = |e: SynapticEdge| (e.from, e.to);
    let m = s0.map_values(f);
    let s1 = ltd_pass(s0, rate);
    assert(m.len() == s0.len());
    assert forall|a: int, b: int| 0 <= a < b < m.len() implies key(m[a]) != key(m[b]) by {
        assert(m[a] == f(s0[a]) && m[b] == f(s0[b]));
    }
    lemma_filter_keys_distinct(m, pred, key);
    assert forall|k: int| 0 <= k < s1.len() implies (#[trigger] s1[k]).wf() by {
        assert(m.contains(s1[k]));
        let j = choose|j: int| 0 <= j < m.len() && m[j] == s1[k];
        assert(m[j] == f(s0[j]));
        lemma_weaken_bounds(s0[j].weight.0, rate);
    }
    assert forall|a: int, b: int| 0 <= a < b < s1.len() implies !(s1[a].from == s1[b].from
        && s1[a].to == s1[b].to) by {
        assert(key(s1[a]) != key(s1[b]));
    }
    assert forall|x: ConceptId, y: ConceptId| #[trigger] has_edge_key(s1, x, y) implies
        has_edge_key(s0, x, y) by {
        let k = edge_index_of(s1, x, y);
        assert(0 <= k < s1.len() && s1[k].from == x && s1[k].to == y);
        assert(m.contains(s1[k]));
        let j = choose|j: int| 0 <= j < m.len() && m[j] == s1[k];
        assert(m[j] == f(s0[j]));
        assert(s0[j].from == x && s0[j].to == y);
    }
}

/// Filtering a pushed element appends it exactly when the predicate keeps it.
pub proof fn lemma_push_filter<T>(t: Seq<T>, x: T, pred: spec_fn(T) -> bool)
    ensures
        t.push(x).filter(pred) == if pred(x) {
            t.filter(pred).push(x)
        } else {
            t.filter(pred)
        },
{
    reveal(Seq::filter);
    assert(t.push(x).drop_last() =~= t);
    assert(t.push(x).last() == x);
}

/// Apply one decay sweep in place: weaken every edge, drop the inactive.
pub fn ltd_pass_exec(v: &mut Vec<SynapticEdge>, rate: u64)
    requires
        edges_wf(old(v)@),
        edge_keys_unique(old(v)@),
    ensures
        final(v)@ == ltd_pass(old(v)@, rate),
        edges_wf(final(v)@),
        edge_keys_unique(final(v)@),
        forall|x: ConceptId, y: ConceptId|
            #[trigger] has_edge_key(final(v)@, x, y) ==> has_edge_key(old(v)@, x, y),
{
    let ghost s0 = v@;
    let mut out: Vec<SynapticEdge> = Vec::new();
    let mut i: usize = 0;
    while i < v.len()
        invariant
            i <= s0.len(),
            v@ == s0,
            edges_wf(s0),
            out@ == ltd_pass(s0.take(i as int), rate),
        decreases s0.len() - i,
    {
        let mut e = v[i];
        proof {
            assert(e == s0[i as int]);
            assert(s0[i as int].wf());
            lemma_ltd_pass_step(s0, rate, i as int);
        }
        e.decay(rate);
        if e.is_active() {
            out.push(e);
        }
        i = i + 1;
    }
    proof {
        assert(s0.take(s0.len() as int) =~= s0);
    }
    *v = out;
    proof {
        lemma_ltd_pass_keys(s0, rate);
    }
}

/// Both-endpoints-in-working-memory strengthening of a zone.
pub open spec fn ltp_pass(
    s: Seq<SynapticEdge>,
    wm: Seq<(ConceptId, i64)>,
    rate: u64,
    now: i64,
) -> Seq<SynapticEdge> {
    Seq::new(
        s.len(),
        |i: int|
            if crate::graph::wm_has(wm, s[i].from) && crate::graph::wm_has(wm, s[i].to) {
                activated_edge(s[i], rate, now)
            } else {
                s[i]
            },
    )
}

/// Activate, in place, every edge whose two endpoints are in working memory.
pub fn ltp_pass_exec(
    v: &mut Vec<SynapticEdge>,
    wm: &Vec<(ConceptId, i64)>,
    rate: u64,
    now: i64,
)
    requires
        edges_wf(old(v)@),
        edge_keys_unique(old(v)@),
    ensures
        final(v)@ == ltp_pass(old(v)@, wm@, rate, now),
        final(v)@.len() == old(v)@.len(),
        edges_wf(final(v)@),
        edge_keys_unique(final(v)@),
        forall|k: int|
            0 <= k < final(v)@.len() ==> (#[trigger] final(v)@[k]).from == old(v)@[k].from
                && final(v)@[k].to == old(v)@[k].to,
{
    let ghost s0 = v@;
    let mut i: usize = 0;
    while i < v.len()
        invariant
            i <= s0.len(),
            v@.len() == s0.len(),
            edges_wf(s0),
            forall|j: int| 0 <= j < i ==> v@[j] == ltp_pass(s0, wm@, rate, now)[j],
            forall|j: int| i <= j < s0.len() ==> v@[j] == s0[j],
        decreases s0.len() - i,
    {
        let e = v[i];
        proof {
            assert(e == s0[i as int]);
            assert(s0[i as int].wf());
        }
        let from_in = crate::graph::find_working(wm, e.from).is_some();
        let to_in = crate::graph::find_working(wm, e.to).is_some();
        if from_in && to_in {
            let mut e2 = e;
            e2.activate(rate, now);
            v[i] = e2;
        }
        i = i + 1;
    }
    proof {
        assert(v@ =~= ltp_pass(s0, wm@, rate, now));
        assert forall|k: int| 0 <= k < v@.len() implies (#[trigger] v@[k]).wf() && v@[k].from
            == s0[k].from && v@[k].to == s0[k].to by {
            lemma_strengthen_bounds(s0[k].weight.0, rate);
        }
        assert forall|a: int, b: int| 0 <= a < b < v@.len() implies !(v@[a].from == v@[b].from
            && v@[a].to == v@[b].to) by {
            assert(v@[a].from == s0[a].from && v@[a].to == s0[a].to);
            assert(v@[b].from == s0[b].from && v@[b].to == s0[b].to);
        }
    }
}

impl MemoryGraph {
    /// Long-term depression: decay every short-term edge with the configured
    /// decay rate and every long-term edge with a tenth of it; edges that fall
    /// inactive are removed (two-phase with respect to the sweep).
    pub fn apply_ltd_decay(&mut self)
        requires
            old(self).wf(),
        ensures
            final(self).wf(),
            final(self).short_term_edges@ == ltd_pass(
                old(self).short_term_edges@,
                old(self).config.decay_rate,
            ),
            final(self).long_term_edges@ == ltd_pass(
                old(self).long_term_edges@,
                old(self).config.decay_rate / 10,
            ),
            final(self).concepts@ == old(self).concepts@,
            final(self).working_memory@ == old(self).working_memory@,
            final(self).config == old(self).config,
            final(self).last_consolidation == old(self).last_consolidation,
    {
        let ghost g0 = *self;
        let rate = self.config.decay_rate;
        let long_rate = rate / 10;
        ltd_pass_exec(&mut self.short_term_edges, rate);
        ltd_pass_exec(&mut self.long_term_edges, long_rate);
        proof {
            lemma_zone_keys_shrink_wf(g0, *self);
        }
    }

    /// Long-term potentiation: every short-term edge whose endpoints are both
    /// in working memory is activated with twice the learning rate; every such
    /// long-term edge with the learning rate itself.
    pub fn apply_ltp_strengthening(&mut self, now: i64)
        requires
            old(self).wf(),
        ensures
            final(self).wf(),
            final(self).short_term_edges@ == ltp_pass(
                old(self).short_term_edges@,
                old(self).working_memory@,
                mul2_capped(old(self).config.learning_rate),
                now,
            ),
            final(self).long_term_edges@ == ltp_pass(
                old(self).long_term_edges@,
                old(self).working_memory@,
                old(self).config.learning_rate,
                now,
            ),
            final(self).concepts@ == old(self).concepts@,
            final(self).working_memory@ == old(self).working_memory@,
            final(self).config == old(self).config,
            final(self).last_consolidation == old(self).last_consolidation,
    {
        let ghost g0 = *self;
        let rate = self.config.learning_rate;
        let double_rate = if rate > u64::MAX / 2 {
            u64::MAX
        } else {
            rate * 2
        };
        let wm = &self.working_memory;
        let mut st: Vec<SynapticEdge> = Vec::new();
        core::mem::swap(&mut st, &mut self.short_term_edges);
        ltp_pass_exec(&mut st, wm, double_rate, now);
        core::mem::swap(&mut st, &mut self.short_term_edges);
        let mut lt: Vec<SynapticEdge> = Vec::new();
        core::mem::swap(&mut lt, &mut self.long_term_edges);
        ltp_pass_exec(&mut lt, &self.working_memory, rate, now);
        core::mem::swap(&mut lt, &mut self.long_term_edges);
        proof {
            lemma_zone_keys_equal_wf(g0, *self);
        }
    }

    /// A full sleep cycle: LTD decay, then LTP strengthening, then dropping
    /// every working-memory entry older than one hour.
    pub fn sleep_cycle(&mut self, now: i64)
        requires
            old(self).wf(),
        ensures
            final(self).wf(),
            ({
                let after_ltd_st = ltd_pass(old(self).short_term_edges@, old(self).config.decay_rate);
                let after_ltd_lt = ltd_pass(
                    old(self).long_term_edges@,
                    old(self).config.decay_rate / 10,
                );
                &&& final(self).short_term_edges@ == ltp_pass(
                    after_ltd_st,
                    old(self).working_memory@,
                    mul2_capped(old(self).config.learning_rate),
                    now,
                )
                &&& final(self).long_term_edges@ == ltp_pass(
                    after_ltd_lt,
                    old(self).working_memory@,
                    old(self).config.learning_rate,
                    now,
                )
            }),
            final(self).working_memory@ == old(self).working_memory@.filter(
                |p: (ConceptId, i64)| (p.1 as int) >= (now as int) - 3600,
            ),
            final(self).concepts@ == old(self).concepts@,
            final(self).config == old(self).config,
            final(self).last_consolidation == old(self).last_consolidation,
    {
        self.apply_ltd_decay();
        self.apply_ltp_strengthening(now);
        let ghost w0 = self.working_memory@;
        let mut out: Vec<(ConceptId, i64)> = Vec::new();
        let mut i: usize = 0;
        while i < self.working_memory.len()
            invariant
                i <= w0.len(),
                self.working_memory@ == w0,
                out@ =~= w0.take(i as int).filter(
                    |p: (ConceptId, i64)| (p.1 as int) >= (now as int) - 3600,
                ),
            decreases w0.len() - i,
        {
            proof {
                lemma_take_filter_step(
                    w0,
                    |p: (ConceptId, i64)| (p.1 as int) >= (now as int) - 3600,
                    i as int,
                );
            }
            let p = self.working_memory[i];
            if (p.1 as i128) >= (now as i128) - 3600 {
                out.push(p);
            }
            i = i + 1;
        }
        proof {
            assert(w0.take(w0.len() as int) =~= w0);
        }
        self.working_memory = out;
        proof {
            lemma_filter_keys_distinct(
                w0,
                |p: (ConceptId, i64)| (p.1 as int) >= (now as int) - 3600,
                |p: (ConceptId, i64)| p.0,
            );
            assert forall|a: int, b: int| 0 <= a < b < self.working_memory@.len() implies
                self.working_memory@[a].0 != self.working_memory@[b].0 by {
                let key = |p: (ConceptId, i64)| p.0;
                assert(key(self.working_memory@[a]) != key(self.working_memory@[b]));
            }
        }
    }

    /// The adaptive Hebbian learning rate: weaker connections learn faster,
    /// `rate * (1.5 - w)`.
    pub fn adaptive_learning_rate(&self, current_weight: SynapticWeight) -> (r: u64)
        requires
            self.config.wf(),
            current_weight.wf(),
        ensures
            r == adaptive_rate(self.config.learning_rate, current_weight.0),
    {
        let lr = self.config.learning_rate;
        let factor: u64 = 1_500_000 - current_weight.value();
        assert(lr * factor <= 1_000_000 * 1_500_000) by (nonlinear_arith)
            requires
                lr <= 1_000_000,
                factor <= 1_500_000,
        ;
        lr * factor / UNIT
    }
}

/// One directed Hebbian attempt: strengthen `(a, b)` in the short-term zone
/// if it is there, else in the long-term zone, with the adaptive rate drawn
/// from the edge's current weight; otherwise change nothing.
pub open spec fn heb_dir(
    st: Seq<SynapticEdge>,
    lt: Seq<SynapticEdge>,
    a: ConceptId,
    b: ConceptId,
    lr: u64,
    now: i64,
) -> (Seq<SynapticEdge>, Seq<SynapticEdge>) {
    if has_edge_key(st, a, b) {
        let i = edge_index_of(st, a, b);
        let e = st[i];
        (st.update(i, activated_edge(e, adaptive_rate(lr, e.weight.0), now)), lt)
    } else if has_edge_key(lt, a, b) {
        let i = edge_index_of(lt, a, b);
        let e = lt[i];
        (st, lt.update(i, activated_edge(e, adaptive_rate(lr, e.weight.0), now)))
    } else {
        (st, lt)
    }
}

/// One unordered Hebbian pair: both directions in turn.
pub open spec fn heb_pair(
    st: Seq<SynapticEdge>,
    lt: Seq<SynapticEdge>,
    a: ConceptId,
    b: ConceptId,
    lr: u64,
    now: i64,
) -> (Seq<SynapticEdge>, Seq<SynapticEdge>) {
    let p = heb_dir(st, lt, a, b, lr, now);
    heb_dir(p.0, p.1, b, a, lr, now)
}

/// Hebbian pairs `(i, j)` for a fixed `i`, from `j` to the end of the list.
pub open spec fn heb_inner(
    st: Seq<SynapticEdge>,
    lt: Seq<SynapticEdge>,
    ids: Seq<ConceptId>,
    i: int,
    j: int,
    lr: u64,
    now: i64,
) -> (Seq<SynapticEdge>, Seq<SynapticEdge>)
    decreases ids.len() - j,
{
    if j < 0 || j >= ids.len() || i < 0 || i >= ids.len() {
        (st, lt)
    } else {
        let p = heb_pair(st, lt, ids[i], ids[j], lr, now);
        heb_inner(p.0, p.1, ids, i, j + 1, lr, now)
    }
}

/// Hebbian pairs for every `i` from the given index to the end.
pub open spec fn heb_outer(
    st: Seq<SynapticEdge>,
    lt: Seq<SynapticEdge>,
    ids: Seq<ConceptId>,
    i: int,
    lr: u64,
    now: i64,
) -> (Seq<SynapticEdge>, Seq<SynapticEdge>)
    decreases ids.len() - i,
{
    if i < 0 || i >= ids.len() {
        (st, lt)
    } else {
        let p = heb_inner(st, lt, ids, i, i + 1, lr, now);
        heb_outer(p.0, p.1, ids, i + 1, lr, now)
    }
}

/// What remains of the whole Hebbian sweep when the inner loop stands at
/// `(i, j)`.
pub open spec fn heb_mid(
    st: Seq<SynapticEdge>,
    lt: Seq<SynapticEdge>,
    ids: Seq<ConceptId>,
    i: int,
    j: int,
    lr: u64,
    now: i64,
) -> (Seq<SynapticEdge>, Seq<SynapticEdge>) {
    let p = heb_inner(st, lt, ids, i, j, lr, now);
    heb_outer(p.0, p.1, ids, i + 1, lr, now)
}

/// `rate * (1.5 - w)` in fixed point, executable form.
pub fn adaptive_rate_exec(lr: u64, w: u64) -> (r: u64)
    requires
        lr <= UNIT,
        w <= UNIT,
    ensures
        r == adaptive_rate(lr, w),
{
    let factor: u64 = 1_500_000 - w;
    assert(lr * factor <= 1_000_000 * 1_500_000) by (nonlinear_arith)
        requires
            lr <= 1_000_000,
            factor <= 1_500_000,
    ;
    lr * factor / UNIT
}

/// Apply one directed Hebbian attempt in place.
pub fn heb_dir_exec(
    st: &mut Vec<SynapticEdge>,
    lt: &mut Vec<SynapticEdge>,
    a: ConceptId,
    b: ConceptId,
    lr: u64,
    now: i64,
)
    requires
        edge_keys_unique(old(st)@),
        edge_keys_unique(old(lt)@),
        edges_wf(old(st)@),
        edges_wf(old(lt)@),
        lr <= UNIT,
    ensures
        final(st)@ == heb_dir(old(st)@, old(lt)@, a, b, lr, now).0,
        final(lt)@ == heb_dir(old(st)@, old(lt)@, a, b, lr, now).1,
        edge_keys_unique(final(st)@),
        edge_keys_unique(final(lt)@),
        edges_wf(final(st)@),
        edges_wf(final(lt)@),
        final(st)@.len() == old(st)@.len(),
        final(lt)@.len() == old(lt)@.len(),
        forall|k: int|
            0 <= k < final(st)@.len() ==> (#[trigger] final(st)@[k]).from == old(st)@[k].from
                && final(st)@[k].to == old(st)@[k].to,
        forall|k: int|
            0 <= k < final(lt)@.len() ==> (#[trigger] final(lt)@[k]).from == old(lt)@[k].from
                && final(lt)@[k].to == old(lt)@[k].to,
{
    let ghost st0 = st@;
    let ghost lt0 = lt@;
    match find_edge(st, a, b) {
        Some(i) => {
            proof {
                lemma_edge_index(st0, a, b, i as int);
            }
            let e = st[i];
            let rate = adaptive_rate_exec(lr, e.weight.value());
            let mut e2 = e;
            e2.activate(rate, now);
            st[i] = e2;
            proof {
                assert forall|k: int| 0 <= k < st@.len() implies (#[trigger] st@[k]).wf() by {
                    if k != i {
                        assert(st@[k] == st0[k]);
                    }
                }
                assert forall|a2: int, b2: int| 0 <= a2 < b2 < st@.len() implies !(st@[a2].from
                    == st@[b2].from && st@[a2].to == st@[b2].to) by {
                    assert(st@[a2].from == st0[a2].from && st@[a2].to == st0[a2].to);
                    assert(st@[b2].from == st0[b2].from && st@[b2].to == st0[b2].to);
                }
            }
        },
        None => {
            match find_edge(lt, a, b) {
                Some(i) => {
                    proof {
                        lemma_edge_index(lt0, a, b, i as int);
                    }
                    let e = lt[i];
                    let rate = adaptive_rate_exec(lr, e.weight.value());
                    let mut e2 = e;
                    e2.activate(rate, now);
                    lt[i] = e2;
                    proof {
                        assert forall|k: int| 0 <= k < lt@.len() implies (
                        #[trigger] lt@[k]).wf() by {
                            if k != i {
                                assert(lt@[k] == lt0[k]);
                            }
                        }
                        assert forall|a2: int, b2: int| 0 <= a2 < b2 < lt@.len() implies !(
                        lt@[a2].from == lt@[b2].from && lt@[a2].to == lt@[b2].to) by {
                            assert(lt@[a2].from == lt0[a2].from && lt@[a2].to == lt0[a2].to);
                            assert(lt@[b2].from == lt0[b2].from && lt@[b2].to == lt0[b2].to);
                        }
                    }
                },
                None => {},
            }
        },
    }
}

/// Every edge incident to `id` decayed with `rate`; the rest kept.
pub open spec fn decay_incident(
    s: Seq<SynapticEdge>,
    id: ConceptId,
    rate: u64,
) -> Seq<SynapticEdge> {
    Seq::new(
        s.len(),
        |k: int|
            if touches(s[k], id) {
                decayed_edge(s[k], rate)
            } else {
                s[k]
            },
    )
}

/// Weaken, in place, every edge incident to `id`.
pub fn decay_incident_edges(v: &mut Vec<SynapticEdge>, id: ConceptId, rate: u64)
    requires
        edges_wf(old(v)@),
        edge_keys_unique(old(v)@),
    ensures
        final(v)@ == decay_incident(old(v)@, id, rate),
        final(v)@.len() == old(v)@.len(),
        edges_wf(final(v)@),
        edge_keys_unique(final(v)@),
        forall|k: int|
            0 <= k < final(v)@.len() ==> (#[trigger] final(v)@[k]).from == old(v)@[k].from
                && final(v)@[k].to == old(v)@[k].to,
{
    let ghost s0 = v@;
    let mut i: usize = 0;
    while i < v.len()
        invariant
            i <= s0.len(),
            v@.len() == s0.len(),
            edges_wf(s0),
            forall|j: int| 0 <= j < i ==> v@[j] == decay_incident(s0, id, rate)[j],
            forall|j: int| i <= j < s0.len() ==> v@[j] == s0[j],
        decreases s0.len() - i,
    {
        let e = v[i];
        proof {
            assert(e == s0[i as int]);
            assert(s0[i as int].wf());
        }
        if e.from == id || e.to == id {
            let mut e2 = e;
            e2.decay(rate);
            v[i] = e2;
        }
        i = i + 1;
    }
    proof {
        assert(v@ =~= decay_incident(s0, id, rate));
        assert forall|k: int| 0 <= k < v@.len() implies (#[trigger] v@[k]).wf() && v@[k].from
            == s0[k].from && v@[k].to == s0[k].to by {
            if touches(s0[k], id) {
                lemma_weaken_bounds(s0[k].weight.0, rate);
            }
        }
        assert forall|a: int, b: int| 0 <= a < b < v@.len() implies !(v@[a].from == v@[b].from
            && v@[a].to == v@[b].to) by {
            assert(v@[a].from == s0[a].from && v@[a].to == s0[a].to);
            assert(v@[b].from == s0[b].from && v@[b].to == s0[b].to);
        }
    }
}

/// The first `n` winner concepts boosted in order.
pub open spec fn boost_upto(
    st: Seq<SynapticEdge>,
    ws: Seq<ConceptId>,
    n: int,
    rate: u64,
    now: i64,
) -> Seq<SynapticEdge>
    decreases n,
{
    if n <= 0 {
        st
    } else {
        strengthen_incident(boost_upto(st, ws, n - 1, rate, now), ws[n - 1], rate, now)
    }
}

/// The first `n` loser concepts decayed in order.
pub open spec fn sap_upto(
    st: Seq<SynapticEdge>,
    ls: Seq<ConceptId>,
    n: int,
    rate: u64,
) -> Seq<SynapticEdge>
    decreases n,
{
    if n <= 0 {
        st
    } else {
        decay_incident(sap_upto(st, ls, n - 1, rate), ls[n - 1], rate)
    }
}

impl MemoryGraph {
    /// Hebbian learning: for every unordered pair of co-activated concepts,
    /// strengthen both directions wherever an edge already exists, with an
    /// adaptive rate that is larger for weaker edges.  No edge is created.
    pub fn hebbian_strengthening(&mut self, concept_ids: &Vec<ConceptId>, now: i64)
        requires
            old(self).wf(),
        ensures
            final(self).wf(),
            final(self).short_term_edges@ == heb_outer(
                old(self).short_term_edges@,
                old(self).long_term_edges@,
                concept_ids@,
                0,
                old(self).config.learning_rate,
                now,
            ).0,
            final(self).long_term_edges@ == heb_outer(
                old(self).short_term_edges@,
                old(self).long_term_edges@,
                concept_ids@,
                0,
                old(self).config.learning_rate,
                now,
            ).1,
            final(self).concepts@ == old(self).concepts@,
            final(self).working_memory@ == old(self).working_memory@,
            final(self).config == old(self).config,
            final(self).last_consolidation == old(self).last_consolidation,
    {
        let ghost g0 = *self;
        let lr = self.config.learning_rate;
        let ghost ids = concept_ids@;
        let ghost target = heb_outer(
            g0.short_term_edges@,
            g0.long_term_edges@,
            ids,
            0,
            lr,
            now,
        );
        if concept_ids.len() < 2 {
            proof {
                if ids.len() == 1 {
                    assert(heb_inner(
                        g0.short_term_edges@,
                        g0.long_term_edges@,
                        ids,
                        0,
                        1,
                        lr,
                        now,
                    ) == (g0.short_term_edges@, g0.long_term_edges@));
                    assert(heb_outer(
                        g0.short_term_edges@,
                        g0.long_term_edges@,
                        ids,
                        1,
                        lr,
                        now,
                    ) == (g0.short_term_edges@, g0.long_term_edges@));
                }
                assert(target == (g0.short_term_edges@, g0.long_term_edges@));
            }
            return ;
        }
        let n = concept_ids.len();
        let mut i: usize = 0;
        while i < n
            invariant
                i <= n,
                n == ids.len(),
                ids == concept_ids@,
                lr == g0.config.learning_rate,
                lr <= UNIT,
                g0.wf(),
                target == heb_outer(
                    g0.short_term_edges@,
                    g0.long_term_edges@,
                    ids,
                    0,
                    lr,
                    now,
                ),
                heb_outer(
                    self.short_term_edges@,
                    self.long_term_edges@,
                    ids,
                    i as int,
                    lr,
                    now,
                ) == target,
                edge_keys_unique(self.short_term_edges@),
                edge_keys_unique(self.long_term_edges@),
                edges_wf(self.short_term_edges@),
                edges_wf(self.long_term_edges@),
                self.short_term_edges@.len() == g0.short_term_edges@.len(),
                self.long_term_edges@.len() == g0.long_term_edges@.len(),
                forall|k: int|
                    0 <= k < self.short_term_edges@.len() ==> (
                    #[trigger] self.short_term_edges@[k]).from == g0.short_term_edges@[k].from
                        && self.short_term_edges@[k].to == g0.short_term_edges@[k].to,
                forall|k: int|
                    0 <= k < self.long_term_edges@.len() ==> (
                    #[trigger] self.long_term_edges@[k]).from == g0.long_term_edges@[k].from
                        && self.long_term_edges@[k].to == g0.long_term_edges@[k].to,
                self.concepts@ == g0.concepts@,
                self.working_memory@ == g0.working_memory@,
                self.config == g0.config,
                self.last_consolidation == g0.last_consolidation,
            decreases n - i,
        {
            let mut j: usize = i + 1;
            proof {
                assert(heb_mid(
                    self.short_term_edges@,
                    self.long_term_edges@,
                    ids,
                    i as int,
                    i as int + 1,
                    lr,
                    now,
                ) == heb_outer(
                    self.short_term_edges@,
                    self.long_term_edges@,
                    ids,
                    i as int,
                    lr,
                    now,
                ));
            }
            while j < n
                invariant
                    i < n,
                    i + 1 <= j <= n,
                    n == ids.len(),
                    ids == concept_ids@,
                    lr <= UNIT,
                    heb_mid(
                        self.short_term_edges@,
                        self.long_term_edges@,
                        ids,
                        i as int,
                        j as int,
                        lr,
                        now,
                    ) == target,
                    edge_keys_unique(self.short_term_edges@),
                    edge_keys_unique(self.long_term_edges@),
                    edges_wf(self.short_term_edges@),
                    edges_wf(self.long_term_edges@),
                    self.short_term_edges@.len() == g0.short_term_edges@.len(),
                    self.long_term_edges@.len() == g0.long_term_edges@.len(),
                    forall|k: int|
                        0 <= k < self.short_term_edges@.len() ==> (
                        #[trigger] self.short_term_edges@[k]).from
                            == g0.short_term_edges@[k].from && self.short_term_edges@[k].to
                            == g0.short_term_edges@[k].to,
                    forall|k: int|
                        0 <= k < self.long_term_edges@.len() ==> (
                        #[trigger] self.long_term_edges@[k]).from == g0.long_term_edges@[k].from
                            && self.long_term_edges@[k].to == g0.long_term_edges@[k].to,
                    self.concepts@ == g0.concepts@,
                    self.working_memory@ == g0.working_memory@,
                    self.config == g0.config,
                    self.last_consolidation == g0.last_consolidation,
                decreases n - j,
            {
                let ghost st_pre = self.short_term_edges@;
                let ghost lt_pre = self.long_term_edges@;
                let a = concept_ids[i];
                let b = concept_ids[j];
                heb_dir_exec(
                    &mut self.short_term_edges,
                    &mut self.long_term_edges,
                    a,
                    b,
                    lr,
                    now,
                );
                heb_dir_exec(
                    &mut self.short_term_edges,
                    &mut self.long_term_edges,
                    b,
                    a,
                    lr,
                    now,
                );
                proof {
                    let p = heb_pair(st_pre, lt_pre, ids[i as int], ids[j as int], lr, now);
                    assert(self.short_term_edges@ == p.0 && self.long_term_edges@ == p.1);
                    assert(heb_inner(st_pre, lt_pre, ids, i as int, j as int, lr, now)
                        == heb_inner(p.0, p.1, ids, i as int, j as int + 1, lr, now));
                    assert forall|k: int| 0 <= k < self.short_term_edges@.len() implies (
                    #[trigger] self.short_term_edges@[k]).from == g0.short_term_edges@[k].from
                        && self.short_term_edges@[k].to == g0.short_term_edges@[k].to by {
                        assert(self.short_term_edges@[k].from == st_pre[k].from);
                        assert(self.short_term_edges@[k].to == st_pre[k].to);
                    }
                    assert forall|k: int| 0 <= k < self.long_term_edges@.len() implies (
                    #[trigger] self.long_term_edges@[k]).from == g0.long_term_edges@[k].from
                        && self.long_term_edges@[k].to == g0.long_term_edges@[k].to by {
                        assert(self.long_term_edges@[k].from == lt_pre[k].from);
                        assert(self.long_term_edges@[k].to == lt_pre[k].to);
                    }
                }
                j = j + 1;
            }
            proof {
                assert(heb_inner(
                    self.short_term_edges@,
                    self.long_term_edges@,
                    ids,
                    i as int,
                    n as int,
                    lr,
                    now,
                ) == (self.short_term_edges@, self.long_term_edges@));
            }
            i = i + 1;
        }
        proof {
            assert(heb_outer(
                self.short_term_edges@,
                self.long_term_edges@,
                ids,
                n as int,
                lr,
                now,
            ) == (self.short_term_edges@, self.long_term_edges@));
            lemma_zone_keys_equal_wf(g0, *self);
        }
    }

    /// Competitive learning: short-term edges incident to each winner are
    /// boosted with one and a half times the learning rate; short-term edges
    /// incident to each loser decay at twice the decay rate.
    pub fn competitive_learning(
        &mut self,
        winner_concepts: &Vec<ConceptId>,
        loser_concepts: &Vec<ConceptId>,
        now: i64,
    )
        requires
            old(self).wf(),
        ensures
            final(self).wf(),
            final(self).short_term_edges@ == sap_upto(
                boost_upto(
                    old(self).short_term_edges@,
                    winner_concepts@,
                    winner_concepts@.len() as int,
                    (old(self).config.learning_rate * 3 / 2) as u64,
                    now,
                ),
                loser_concepts@,
                loser_concepts@.len() as int,
                (old(self).config.decay_rate * 2) as u64,
            ),
            final(self).long_term_edges@ == old(self).long_term_edges@,
            final(self).concepts@ == old(self).concepts@,
            final(self).working_memory@ == old(self).working_memory@,
            final(self).config == old(self).config,
            final(self).last_consolidation == old(self).last_consolidation,
    {
        let ghost g0 = *self;
        let boost_rate = self.config.learning_rate * 3 / 2;
        let decay_rate = self.config.decay_rate * 2;
        let ghost ws = winner_concepts@;
        let ghost ls = loser_concepts@;
        let mut i: usize = 0;
        while i < winner_concepts.len()
            invariant
                i <= ws.len(),
                ws == winner_concepts@,
                edge_keys_unique(self.short_term_edges@),
                edges_wf(self.short_term_edges@),
                self.short_term_edges@ == boost_upto(
                    g0.short_term_edges@,
                    ws,
                    i as int,
                    boost_rate,
                    now,
                ),
                self.short_term_edges@.len() == g0.short_term_edges@.len(),
                forall|k: int|
                    0 <= k < self.short_term_edges@.len() ==> (
                    #[trigger] self.short_term_edges@[k]).from == g0.short_term_edges@[k].from
                        && self.short_term_edges@[k].to == g0.short_term_edges@[k].to,
                self.long_term_edges@ == g0.long_term_edges@,
                self.concepts@ == g0.concepts@,
                self.working_memory@ == g0.working_memory@,
                self.config == g0.config,
                self.last_consolidation == g0.last_consolidation,
                g0.wf(),
            decreases ws.len() - i,
        {
            let ghost pre = self.short_term_edges@;
            strengthen_incident_edges(
                &mut self.short_term_edges,
                winner_concepts[i],
                boost_rate,
                now,
            );
            proof {
                assert(boost_upto(g0.short_term_edges@, ws, i as int + 1, boost_rate, now)
                    == strengthen_incident(pre, ws[i as int], boost_rate, now));
                assert forall|k: int| 0 <= k < self.short_term_edges@.len() implies (
                #[trigger] self.short_term_edges@[k]).from == g0.short_term_edges@[k].from
                    && self.short_term_edges@[k].to == g0.short_term_edges@[k].to by {
                    assert(self.short_term_edges@[k].from == pre[k].from);
                    assert(self.short_term_edges@[k].to == pre[k].to);
                }
            }
            i = i + 1;
        }
        let ghost boosted = self.short_term_edges@;
        let mut j: usize = 0;
        while j < loser_concepts.len()
            invariant
                j <= ls.len(),
                ls == loser_concepts@,
                edge_keys_unique(self.short_term_edges@),
                edges_wf(self.short_term_edges@),
                self.short_term_edges@ == sap_upto(boosted, ls, j as int, decay_rate),
                self.short_term_edges@.len() == g0.short_term_edges@.len(),
                boosted.len() == g0.short_term_edges@.len(),
                forall|k: int|
                    0 <= k < self.short_term_edges@.len() ==> (
                    #[trigger] self.short_term_edges@[k]).from == g0.short_term_edges@[k].from
                        && self.short_term_edges@[k].to == g0.short_term_edges@[k].to,
                self.long_term_edges@ == g0.long_term_edges@,
                self.concepts@ == g0.concepts@,
                self.working_memory@ == g0.working_memory@,
                self.config == g0.config,
                self.last_consolidation == g0.last_consolidation,
                g0.wf(),
            decreases ls.len() - j,
        {
            let ghost pre = self.short_term_edges@;
            decay_incident_edges(&mut self.short_term_edges, loser_concepts[j], decay_rate);
            proof {
                assert(sap_upto(boosted, ls, j as int + 1, decay_rate) == decay_incident(
                    pre,
                    ls[j as int],
                    decay_rate,
                ));
                assert forall|k: int| 0 <= k < self.short_term_edges@.len() implies (
                #[trigger] self.short_term_edges@[k]).from == g0.short_term_edges@[k].from
                    && self.short_term_edges@[k].to == g0.short_term_edges@[k].to by {
                    assert(self.short_term_edges@[k].from == pre[k].from);
                    assert(self.short_term_edges@[k].to == pre[k].to);
                }
            }
            j = j + 1;
        }
        proof {
            lemma_zone_keys_equal_wf(g0, *self);
        }
    }
}

/// `rate * (1.5 - w)` in fixed point.
pub open spec fn adaptive_rate(lr: u64, w: u64) -> u64 {
    if w >= 1_500_000 {
        0
    } else {
        (lr * (1_500_000 - w) / (UNIT as int)) as u64
    }
}

/// Double a rate, saturating.
pub open spec fn mul2_capped(rate: u64) -> u64 {
    if rate > u64::MAX / 2 {
        u64::MAX
    } else {
        (rate * 2) as u64
    }
}

/// When the key sets of both zones only shrink and everything else is kept,
/// the graph invariants survive.
pub proof fn lemma_zone_keys_shrink_wf(g0: MemoryGraph, g1: MemoryGraph)
    requires
        g0.wf(),
        g1.concepts@ == g0.concepts@,
        g1.config == g0.config,
        wm_keys_unique(g1.working_memory@),
        edge_keys_unique(g1.short_term_edges@),
        edge_keys_unique(g1.long_term_edges@),
        edges_wf(g1.short_term_edges@),
        edges_wf(g1.long_term_edges@),
        forall|x: ConceptId, y: ConceptId|
            #[trigger] has_edge_key(g1.short_term_edges@, x, y) ==> has_edge_key(
                g0.short_term_edges@,
                x,
                y,
            ),
        forall|x: ConceptId, y: ConceptId|
            #[trigger] has_edge_key(g1.long_term_edges@, x, y) ==> has_edge_key(
                g0.long_term_edges@,
                x,
                y,
            ),
    ensures
        g1.wf(),
{
    assert forall|i: int| 0 <= i < g1.short_term_edges@.len() implies has_concept_id(
        g1.concepts@,
        (#[trigger] g1.short_term_edges@[i]).from,
    ) && has_concept_id(g1.concepts@, g1.short_term_edges@[i].to) by {
        let e = g1.short_term_edges@[i];
        lemma_edge_index(g1.short_term_edges@, e.from, e.to, i);
        assert(has_edge_key(g0.short_term_edges@, e.from, e.to));
        let j = edge_index_of(g0.short_term_edges@, e.from, e.to);
        assert(has_concept_id(g0.concepts@, g0.short_term_edges@[j].from));
        assert(has_concept_id(g0.concepts@, g0.short_term_edges@[j].to));
    }
    assert forall|i: int| 0 <= i < g1.long_term_edges@.len() implies has_concept_id(
        g1.concepts@,
        (#[trigger] g1.long_term_edges@[i]).from,
    ) && has_concept_id(g1.concepts@, g1.long_term_edges@[i].to) by {
        let e = g1.long_term_edges@[i];
        lemma_edge_index(g1.long_term_edges@, e.from, e.to, i);
        assert(has_edge_key(g0.long_term_edges@, e.from, e.to));
        let j = edge_index_of(g0.long_term_edges@, e.from, e.to);
        assert(has_concept_id(g0.concepts@, g0.long_term_edges@[j].from));
        assert(has_concept_id(g0.concepts@, g0.long_term_edges@[j].to));
    }
    assert forall|i: int| 0 <= i < g1.short_term_edges@.len() implies !has_edge_key(
        g1.long_term_edges@,
        (#[trigger] g1.short_term_edges@[i]).from,
        g1.short_term_edges@[i].to,
    ) by {
        let e = g1.short_term_edges@[i];
        lemma_edge_index(g1.short_term_edges@, e.from, e.to, i);
        assert(has_edge_key(g0.short_term_edges@, e.from, e.to));
        let j = edge_index_of(g0.short_term_edges@, e.from, e.to);
        assert(!has_edge_key(g0.long_term_edges@, e.from, e.to));
        if has_edge_key(g1.long_term_edges@, e.from, e.to) {
            assert(has_edge_key(g0.long_term_edges@, e.from, e.to));
        }
    }
}

/// When the keys of both zones are kept pointwise and everything else is
/// kept, the graph invariants survive.
pub proof fn lemma_zone_keys_equal_wf(g0: MemoryGraph, g1: MemoryGraph)
    requires
        g0.wf(),
        g1.concepts@ == g0.concepts@,
        g1.config == g0.config,
        wm_keys_unique(g1.working_memory@),
        edge_keys_unique(g1.short_term_edges@),
        edge_keys_unique(g1.long_term_edges@),
        edges_wf(g1.short_term_edges@),
        edges_wf(g1.long_term_edges@),
        g1.short_term_edges@.len() == g0.short_term_edges@.len(),
        g1.long_term_edges@.len() == g0.long_term_edges@.len(),
        forall|k: int|
            0 <= k < g1.short_term_edges@.len() ==> (#[trigger] g1.short_term_edges@[k]).from
                == g0.short_term_edges@[k].from && g1.short_term_edges@[k].to
                == g0.short_term_edges@[k].to,
        forall|k: int|
            0 <= k < g1.long_term_edges@.len() ==> (#[trigger] g1.long_term_edges@[k]).from
                == g0.long_term_edges@[k].from && g1.long_term_edges@[k].to
                == g0.long_term_edges@[k].to,
    ensures
        g1.wf(),
{
    assert forall|x: ConceptId, y: ConceptId| #[trigger] has_edge_key(g1.short_term_edges@, x, y)
        implies has_edge_key(g0.short_term_edges@, x, y) by {
        let i = edge_index_of(g1.short_term_edges@, x, y);
        assert(g0.short_term_edges@[i].from == x && g0.short_term_edges@[i].to == y);
    }
    assert forall|x: ConceptId, y: ConceptId| #[trigger] has_edge_key(g1.long_term_edges@, x, y)
        implies has_edge_key(g0.long_term_edges@, x, y) by {
        let i = edge_index_of(g1.long_term_edges@, x, y);
        assert(g0.long_term_edges@[i].from == x && g0.long_term_edges@[i].to == y);
    }
    lemma_zone_keys_shrink_wf(g0, g1);
}

} // verus!
