//! Recall: breadth-first associative retrieval, content-based retrieval by
//! token similarity, and spreading activation.

use vstd::prelude::*;
use vstd::multiset::Multiset;
use vstd::string::StringSliceAdditionalSpecFns;
use crate::types::{Concept, ConceptId, SynapticEdge, accessed_concept, UNIT, ACTIVITY_THRESHOLD};
use crate::graph::{MemoryGraph, concept_eq, concept_lookup, has_concept_id, concepts_same_except,
    strengthen_incident, find_concept, lemma_concept_index, lemma_take_filter_step};
use crate::text::{lower_of, lowercase, tokenize_distinct, distinct_long_tokens, jaccard,
    jaccard_exec, lemma_dedup_distinct, token_seq};

verus! {

/// Recall query configuration.  Relevance bounds are fixed-point fractions
/// of [`UNIT`].
#[derive(Debug, Clone, Copy, PartialEq, Eq, Structural)]
pub struct RecallQuery {
    pub max_results: Option<usize>,
    pub min_relevance: u64,
    pub max_path_length: usize,
    pub include_semantic_similarity: bool,
    pub boost_recent_memories: bool,
}

impl Default for RecallQuery {
    /// Ten results at most, relevance at least `0.1`, paths of at most three
    /// hops, recency boost on.
    fn default() -> (r: Self)
        ensures
            r.max_results == Some(10usize),
            r.min_relevance == 100_000,
            r.max_path_length == 3,
            r.include_semantic_similarity == false,
            r.boost_recent_memories == true,
    {
        RecallQuery {
            max_results: Some(10),
            min_relevance: 100_000,
            max_path_length: 3,
            include_semantic_similarity: false,
            boost_recent_memories: true,
        }
    }
}

/// One ranked recall answer.
#[derive(Debug, Clone)]
pub struct RecallResult {
    pub concept: Concept,
    pub relevance_score: u64,
    pub association_path: Vec<ConceptId>,
    pub connection_strength: u64,
}

/// The recency boost factor applied to a score: 1.5 within the hour, 1.2
/// within the day, 1.0 within the week, 0.8 beyond.
pub open spec fn recency_boosted(score: u64, last_accessed: i64, now: i64) -> u64 {
    let age = (now as int) - (last_accessed as int);
    if age < 3600 {
        ((score * 3) as int / 2) as u64
    } else if age < 86400 {
        ((score * 6) as int / 5) as u64
    } else if age < 604_800 {
        score
    } else {
        ((score * 4) as int / 5) as u64
    }
}

/// Apply the recency boost to a score.
pub fn recency_boosted_exec(score: u64, last_accessed: i64, now: i64) -> (r: u64)
    requires
        score <= 2 * UNIT,
    ensures
        r == recency_boosted(score, last_accessed, now),
{
    let age_ok_1h = (last_accessed as i128) > (now as i128) - 3600;
    let age_ok_1d = (last_accessed as i128) > (now as i128) - 86400;
    let age_ok_7d = (last_accessed as i128) > (now as i128) - 604_800;
    if age_ok_1h {
        score * 3 / 2
    } else if age_ok_1d {
        score * 6 / 5
    } else if age_ok_7d {
        score
    } else {
        score * 4 / 5
    }
}

/// A sequence of distinct items drawn from a universe is no longer than the
/// universe.
pub proof fn lemma_distinct_in_universe<T>(xs: Seq<T>, universe: Seq<T>)
    requires
        forall|a: int, b: int| 0 <= a < b < xs.len() ==> xs[a] != xs[b],
        forall|k: int| 0 <= k < xs.len() ==> universe.contains(#[trigger] xs[k]),
    ensures
        xs.len() <= universe.len(),
{
    broadcast use vstd::seq_lib::seq_to_set_is_finite;
    broadcast use vstd::set_lib::group_set_lib_default;

    assert forall|a: int, b: int|
        0 <= a < xs.len() && 0 <= b < xs.len() && a != b implies xs[a] != xs[b] by {
        if a < b {
        } else {
        }
    }
    xs.unique_seq_to_set();
    assert(xs.to_set().subset_of(universe.to_set())) by {
        assert forall|t: T| xs.to_set().contains(t) implies universe.to_set().contains(t) by {
            let j = choose|j: int| 0 <= j < xs.len() && xs[j] == t;
            assert(universe.contains(t));
            let m = choose|m: int| 0 <= m < universe.len() && universe[m] == t;
            assert(universe.to_set().contains(universe[m]));
        }
    }
    universe.lemma_cardinality_of_set();
    vstd::set_lib::lemma_len_subset(xs.to_set(), universe.to_set());
}

/// Sort score/index pairs descending by score (selection sort).  The result
/// is a permutation with the same multiset of pairs.
pub fn sort_scores_desc(v: Vec<(u64, usize)>) -> (r: Vec<(u64, usize)>)
    ensures
        r@.to_multiset() == v@.to_multiset(),
        r@.len() == v@.len(),
        forall|i: int, j: int| 0 <= i < j < r@.len() ==> r@[i].0 >= r@[j].0,
{
    broadcast use vstd::seq_lib::group_to_multiset_ensures;
    broadcast use vstd::multiset::group_multiset_axioms;

    let mut rem = v;
    let mut out: Vec<(u64, usize)> = Vec::new();
    let ghost orig = rem@;
    while rem.len() > 0
        invariant
            out@.to_multiset().add(rem@.to_multiset()) =~= orig.to_multiset(),
            out@.len() + rem@.len() == orig.len(),
            forall|i: int, j: int| 0 <= i < j < out@.len() ==> out@[i].0 >= out@[j].0,
            forall|i: int, k: int|
                0 <= i < out@.len() && 0 <= k < rem@.len() ==> out@[i].0 >= rem@[k].0,
        decreases rem@.len(),
    {
        let mut best: usize = 0;
        let mut m: usize = 1;
        while m < rem.len()
            invariant
                best < m <= rem@.len(),
                rem@.len() > 0,
                forall|k: int| 0 <= k < m ==> rem@[best as int].0 >= rem@[k].0,
            decreases rem@.len() - m,
        {
            if rem[m].0 > rem[best].0 {
                best = m;
            }
            m = m + 1;
        }
        let ghost rem0 = rem@;
        let picked = rem.remove(best);
        proof {
            broadcast use vstd::seq_lib::group_to_multiset_ensures;
            broadcast use vstd::multiset::group_multiset_axioms;

            assert(rem0.remove(best as int).to_multiset() =~= rem0.to_multiset().remove(
                picked,
            ));
            assert(forall|k: int| 0 <= k < rem0.len() ==> picked.0 >= rem0[k].0);
            assert forall|k: int| 0 <= k < rem@.len() implies picked.0 >= rem@[k].0 by {
                if k < best as int {
                    assert(rem@[k] == rem0[k]);
                } else {
                    assert(rem@[k] == rem0[k + 1]);
                }
            }
            assert(out@.push(picked).to_multiset() =~= out@.to_multiset().insert(picked));
            assert(rem0.to_multiset() =~= rem@.to_multiset().insert(picked)) by {
                assert(rem0.to_multiset().remove(picked).insert(picked) =~= rem0.to_multiset())
                    by {
                    assert(rem0.contains(rem0[best as int]));
                    assert(rem0.to_multiset().count(picked) > 0);
                }
            }
        }
        out.push(picked);
    }
    proof {
        assert(rem@.to_multiset() =~= Multiset::<(u64, usize)>::empty()) by {
            assert(rem@ =~= Seq::<(u64, usize)>::empty());
        }
        assert(out@.to_multiset() =~= orig.to_multiset());
    }
    out
}

/// Similarity of a query text to a concept's content: Jaccard over the
/// distinct lower-cased tokens longer than two bytes.
pub open spec fn query_similarity(q: Seq<char>, content: Seq<char>) -> u64 {
    jaccard(
        distinct_long_tokens(vstd::utf8::encode_utf8(lower_of(q))),
        distinct_long_tokens(vstd::utf8::encode_utf8(lower_of(content))),
    )
}

/// The relevance score that content recall assigns to a concept.
pub open spec fn content_score(c: Concept, q: Seq<char>, boost: bool, now: i64) -> u64 {
    let s = query_similarity(q, c.content@);
    if boost {
        recency_boosted(s, c.last_accessed, now)
    } else {
        s
    }
}

/// Whether content recall keeps the concept.
pub open spec fn content_qualifies(c: Concept, q: Seq<char>, min_relevance: u64) -> bool {
    query_similarity(q, c.content@) >= min_relevance
}

/// Similarity of a query's token list to a content text.
fn query_similarity_exec(qt: &Vec<Vec<u8>>, content: &String, ghost_q: Ghost<Seq<char>>) -> (r:
    u64)
    requires
        qt.deep_view() == distinct_long_tokens(vstd::utf8::encode_utf8(lower_of(ghost_q@))),
    ensures
        r == query_similarity(ghost_q@, content@),
        r <= UNIT,
{
    let clow = lowercase(content.as_str());
    let sc = clow.as_str();
    let ct = tokenize_distinct(sc, 2);
    proof {
        assert(sc.spec_bytes() == vstd::utf8::encode_utf8(clow@));
        lemma_dedup_distinct(
            token_seq(vstd::utf8::encode_utf8(lower_of(ghost_q@))).filter(
                |t: Seq<u8>| t.len() > 2,
            ),
        );
    }
    jaccard_exec(qt, &ct)
}

impl MemoryGraph {
    /// Content-based recall: score every concept by token similarity to the
    /// query, keep those at or above the relevance floor, apply the recency
    /// boost when requested, sort by score descending, and truncate.
    pub fn recall_by_content(
        &self,
        query_content: &str,
        recall_query: RecallQuery,
        now: i64,
    ) -> (r: Vec<RecallResult>)
        requires
            self.wf(),
        ensures
            forall|k: int|
                0 <= k < r@.len() ==> {
                    let c = (#[trigger] r@[k]).concept;
                    &&& has_concept_id(self.concepts@, c.id)
                    &&& concept_eq(c, concept_lookup(self.concepts@, c.id))
                    &&& content_qualifies(c, query_content@, recall_query.min_relevance)
                    &&& r@[k].connection_strength == query_similarity(query_content@, c.content@)
                    &&& r@[k].relevance_score == content_score(
                        c,
                        query_content@,
                        recall_query.boost_recent_memories,
                        now,
                    )
                    &&& r@[k].association_path@ == seq![c.id]
                },
            forall|i: int, j: int|
                0 <= i < j < r@.len() ==> r@[i].relevance_score >= r@[j].relevance_score,
            forall|i: int, j: int| 0 <= i < j < r@.len() ==> r@[i].concept.id != r@[j].concept.id,
            ({
                let qcount = self.concepts@.filter(
                    |c: Concept|
                        content_qualifies(c, query_content@, recall_query.min_relevance),
                ).len();
                match recall_query.max_results {
                    Some(m) => r@.len() == if qcount <= m {
                        qcount
                    } else {
                        m as nat
                    },
                    None => r@.len() == qcount,
                }
            }),
            forall|j: int|
                0 <= j < self.concepts@.len() && content_qualifies(
                    #[trigger] self.concepts@[j],
                    query_content@,
                    recall_query.min_relevance,
                ) ==> (exists|k: int|
                    0 <= k < r@.len() && (#[trigger] r@[k]).concept.id
                        == self.concepts@[j].id) || (recall_query.max_results.is_some()
                && r@.len() == recall_query.max_results.unwrap() && (r@.len() == 0
                || content_score(
                    self.concepts@[j],
                    query_content@,
                    recall_query.boost_recent_memories,
                    now,
                ) <= r@[r@.len() - 1].relevance_score)),
    {
        let ghost q = query_content@;
        let qlow = lowercase(query_content);
        let sq = qlow.as_str();
        let qt = tokenize_distinct(sq, 2);
        proof {
            assert(sq.spec_bytes() == vstd::utf8::encode_utf8(qlow@));
        }
        let ghost cs = self.concepts@;
        let mut scored: Vec<(u64, usize)> = Vec::new();
        let mut i: usize = 0;
        while i < self.concepts.len()
            invariant
                i <= cs.len(),
                self.concepts@ == cs,
                self.wf(),
                qt.deep_view() == distinct_long_tokens(vstd::utf8::encode_utf8(lower_of(q))),
                scored@.len() == cs.take(i as int).filter(
                    |c: Concept| content_qualifies(c, q, recall_query.min_relevance),
                ).len(),
                forall|k: int|
                    0 <= k < scored@.len() ==> {
                        let p = #[trigger] scored@[k];
                        &&& p.1 < i
                        &&& content_qualifies(cs[p.1 as int], q, recall_query.min_relevance)
                        &&& p.0 == content_score(
                            cs[p.1 as int],
                            q,
                            recall_query.boost_recent_memories,
                            now,
                        )
                    },
                forall|a: int, b: int| 0 <= a < b < scored@.len() ==> scored@[a].1 < scored@[b].1,
                forall|j2: int|
                    0 <= j2 < i && content_qualifies(
                        #[trigger] cs[j2],
                        q,
                        recall_query.min_relevance,
                    ) ==> exists|k: int|
                        0 <= k < scored@.len() && (#[trigger] scored@[k]).1 == j2,
            decreases cs.len() - i,
        {
            proof {
                lemma_take_filter_step(
                    cs,
                    |c: Concept| content_qualifies(c, q, recall_query.min_relevance),
                    i as int,
                );
            }
            let ghost scored0 = scored@;
            let sim = query_similarity_exec(&qt, &self.concepts[i].content, Ghost(q));
            if sim >= recall_query.min_relevance {
                let score = if recall_query.boost_recent_memories {
                    recency_boosted_exec(sim, self.concepts[i].last_accessed, now)
                } else {
                    sim
                };
                scored.push((score, i));
            }
            proof {
                assert forall|j2: int|
                    0 <= j2 < i + 1 && content_qualifies(
                        #[trigger] cs[j2],
                        q,
                        recall_query.min_relevance,
                    ) implies exists|k: int|
                        0 <= k < scored@.len() && (#[trigger] scored@[k]).1 == j2 by {
                    if j2 < i {
                        let k = choose|k: int|
                            0 <= k < scored0.len() && (#[trigger] scored0[k]).1 == j2;
                        assert(scored@[k].1 == j2);
                    } else {
                        assert(scored@[scored@.len() - 1].1 == j2);
                    }
                }
            }
            i = i + 1;
        }
        proof {
            assert(cs.take(cs.len() as int) =~= cs);
        }
        let ghost pre_sort = scored@;
        let mut sorted = sort_scores_desc(scored);
        proof {
            broadcast use vstd::seq_lib::group_to_multiset_ensures;

            assert forall|k: int| 0 <= k < sorted@.len() implies {
                let p = #[trigger] sorted@[k];
                &&& p.1 < cs.len()
                &&& content_qualifies(cs[p.1 as int], q, recall_query.min_relevance)
                &&& p.0 == content_score(
                    cs[p.1 as int],
                    q,
                    recall_query.boost_recent_memories,
                    now,
                )
            } by {
                assert(sorted@.to_multiset().count(sorted@[k]) > 0);
                assert(pre_sort.to_multiset().count(sorted@[k]) > 0);
                assert(pre_sort.contains(sorted@[k]));
                let k2 = choose|k2: int| 0 <= k2 < pre_sort.len() && pre_sort[k2] == sorted@[k];
            }
            assert forall|a: int, b: int| 0 <= a < b < sorted@.len() implies sorted@[a].1
                != sorted@[b].1 by {
                if sorted@[a].1 == sorted@[b].1 {
                    assert(sorted@[a] == sorted@[b]);
                    pre_sort.lemma_multiset_has_no_duplicates();
                    sorted@.lemma_multiset_has_no_duplicates_conv();
                    assert(sorted@[a] != sorted@[b]);
                }
            }
        }
        let ghost pre_trunc = sorted@;
        let cap = match recall_query.max_results {
            Some(m) => m,
            None => sorted.len(),
        };
        if sorted.len() > cap {
            sorted.truncate(cap);
        }
        proof {
            assert(sorted@ =~= pre_trunc.take(sorted@.len() as int));
        }
        let mut results: Vec<RecallResult> = Vec::new();
        let mut k: usize = 0;
        while k < sorted.len()
            invariant
                k <= sorted@.len(),
                self.concepts@ == cs,
                self.wf(),
                qt.deep_view() == distinct_long_tokens(vstd::utf8::encode_utf8(lower_of(q))),
                sorted@ == pre_trunc.take(sorted@.len() as int),
                sorted@.len() <= pre_trunc.len(),
                forall|m: int|
                    0 <= m < pre_trunc.len() ==> {
                        let p = #[trigger] pre_trunc[m];
                        &&& p.1 < cs.len()
                        &&& content_qualifies(cs[p.1 as int], q, recall_query.min_relevance)
                        &&& p.0 == content_score(
                            cs[p.1 as int],
                            q,
                            recall_query.boost_recent_memories,
                            now,
                        )
                    },
                forall|a: int, b: int|
                    0 <= a < b < pre_trunc.len() ==> pre_trunc[a].0 >= pre_trunc[b].0,
                forall|a: int, b: int|
                    0 <= a < b < pre_trunc.len() ==> pre_trunc[a].1 != pre_trunc[b].1,
                results@.len() == k,
                forall|m: int|
                    0 <= m < k ==> {
                        let res = #[trigger] results@[m];
                        &&& concept_eq(res.concept, cs[sorted@[m].1 as int])
                        &&& res.relevance_score == sorted@[m].0
                        &&& res.connection_strength == query_similarity(
                            q,
                            cs[sorted@[m].1 as int].content@,
                        )
                        &&& res.association_path@ == seq![cs[sorted@[m].1 as int].id]
                    },
            decreases sorted@.len() - k,
        {
            let idx = sorted[k].1;
            let concept = self.concepts[idx].duplicate();
            let strength = query_similarity_exec(&qt, &self.concepts[idx].content, Ghost(q));
            let mut path: Vec<ConceptId> = Vec::new();
            path.push(concept.id);
            proof {
                assert(path@ =~= seq![cs[idx as int].id]);
            }
            results.push(
                RecallResult {
                    concept,
                    relevance_score: sorted[k].0,
                    association_path: path,
                    connection_strength: strength,
                },
            );
            k = k + 1;
        }
        proof {
            assert forall|m: int| 0 <= m < results@.len() implies {
                let c = (#[trigger] results@[m]).concept;
                &&& has_concept_id(self.concepts@, c.id)
                &&& concept_eq(c, concept_lookup(self.concepts@, c.id))
                &&& content_qualifies(c, q, recall_query.min_relevance)
                &&& results@[m].connection_strength == query_similarity(q, c.content@)
                &&& results@[m].relevance_score == content_score(
                    c,
                    q,
                    recall_query.boost_recent_memories,
                    now,
                )
                &&& results@[m].association_path@ == seq![c.id]
            } by {
                let idx = sorted@[m].1 as int;
                assert(concept_eq(results@[m].concept, cs[idx]));
                lemma_concept_index(cs, cs[idx].id, idx);
            }
            assert forall|a: int, b: int| 0 <= a < b < results@.len() implies
                results@[a].concept.id != results@[b].concept.id by {
                assert(concept_eq(results@[a].concept, cs[sorted@[a].1 as int]));
                assert(concept_eq(results@[b].concept, cs[sorted@[b].1 as int]));
                assert(sorted@[a] == pre_trunc[a] && sorted@[b] == pre_trunc[b]);
                assert(sorted@[a].1 != sorted@[b].1);
            }
            // Under a cap, the kept results are the top-scoring qualifying
            // concepts: anything omitted scores no higher than the last kept.
            assert forall|j: int|
                0 <= j < cs.len() && content_qualifies(
                    #[trigger] cs[j],
                    q,
                    recall_query.min_relevance,
                ) implies (exists|k2: int|
                    0 <= k2 < results@.len() && (#[trigger] results@[k2]).concept.id
                        == cs[j].id) || (recall_query.max_results.is_some() && results@.len()
                == recall_query.max_results.unwrap() && (results@.len() == 0 || content_score(
                cs[j],
                q,
                recall_query.boost_recent_memories,
                now,
            ) <= results@[results@.len() - 1].relevance_score)) by {
                broadcast use vstd::seq_lib::group_to_multiset_ensures;
                broadcast use vstd::multiset::group_multiset_axioms;

                let kp = choose|kp: int|
                    0 <= kp < pre_sort.len() && (#[trigger] pre_sort[kp]).1 == j;
                let pair = pre_sort[kp];
                assert(pair.0 == content_score(
                    cs[j],
                    q,
                    recall_query.boost_recent_memories,
                    now,
                ));
                assert(pre_sort.contains(pair));
                assert(pre_sort.to_multiset().count(pair) > 0);
                assert(pre_trunc.to_multiset().count(pair) > 0);
                assert(pre_trunc.contains(pair));
                let p = choose|p: int| 0 <= p < pre_trunc.len() && pre_trunc[p] == pair;
                if p < results@.len() {
                    assert(sorted@[p] == pre_trunc[p]);
                    assert(concept_eq(results@[p].concept, cs[sorted@[p].1 as int]));
                    assert(results@[p].concept.id == cs[j].id) by {
                        assert(sorted@[p].1 == j);
                    }
                } else {
                    assert(results@.len() < pre_trunc.len());
                    assert(recall_query.max_results.is_some() && results@.len()
                        == recall_query.max_results.unwrap());
                    if results@.len() > 0 {
                        let last = results@.len() - 1;
                        assert(pre_trunc[p].0 <= pre_trunc[last].0);
                        assert(sorted@[last] == pre_trunc[last]);
                        assert(results@[last].relevance_score == sorted@[last].0);
                    }
                }
            }
        }
        results
    }
}

/// A breadth-first work item: a concept, the relevance accumulated on the
/// way to it, the path that produced it, and its depth.
struct BfsItem {
    id: ConceptId,
    relevance: u64,
    path: Vec<ConceptId>,
    depth: usize,
}

/// The best relevance seen for a concept, with the path that produced it and
/// the weight of the final edge.
struct BfsScore {
    id: ConceptId,
    relevance: u64,
    path: Vec<ConceptId>,
    strength: u64,
}

/// The abstract value of the work queue.
spec fn qview(q: Seq<BfsItem>) -> Seq<(ConceptId, u64, Seq<ConceptId>, int)> {
    Seq::new(q.len(), |i: int| (q[i].id, q[i].relevance, q[i].path@, q[i].depth as int))
}

/// The abstract value of the score table.
spec fn sview(s: Seq<BfsScore>) -> Seq<(ConceptId, u64, Seq<ConceptId>, u64)> {
    Seq::new(s.len(), |i: int| (s[i].id, s[i].relevance, s[i].path@, s[i].strength))
}

/// Whether the score table holds an entry for `id`.
pub open spec fn has_score(s: Seq<(ConceptId, u64, Seq<ConceptId>, u64)>, id: ConceptId) -> bool {
    exists|i: int| 0 <= i < s.len() && s[i].0 == id
}

/// The index of `id` in the score table.
pub open spec fn score_index_of(
    s: Seq<(ConceptId, u64, Seq<ConceptId>, u64)>,
    id: ConceptId,
) -> int {
    choose|i: int| 0 <= i < s.len() && s[i].0 == id
}

/// The score entry of `id`.
pub open spec fn score_lookup(
    s: Seq<(ConceptId, u64, Seq<ConceptId>, u64)>,
    id: ConceptId,
) -> (ConceptId, u64, Seq<ConceptId>, u64) {
    s[score_index_of(s, id)]
}

/// With unique identifiers, a matching index is the index of the identifier.
pub proof fn lemma_score_index(
    s: Seq<(ConceptId, u64, Seq<ConceptId>, u64)>,
    id: ConceptId,
    i: int,
)
    requires
        forall|a: int, b: int| 0 <= a < b < s.len() ==> s[a].0 != s[b].0,
        0 <= i < s.len(),
        s[i].0 == id,
    ensures
        has_score(s, id),
        score_index_of(s, id) == i,
        score_lookup(s, id) == s[i],
{
    assert(has_score(s, id));
    let j = score_index_of(s, id);
    if j != i {
        if j < i {
            assert(s[j].0 != s[i].0);
        } else {
            assert(s[i].0 != s[j].0);
        }
    }
}

/// The score table after offering `id` the relevance `nr` with the given
/// path and final edge weight: a fresh entry when absent, replaced when the
/// offer is strictly better, unchanged otherwise.
pub open spec fn score_upd(
    scores: Seq<(ConceptId, u64, Seq<ConceptId>, u64)>,
    id: ConceptId,
    nr: u64,
    path: Seq<ConceptId>,
    w: u64,
) -> Seq<(ConceptId, u64, Seq<ConceptId>, u64)> {
    if has_score(scores, id) {
        if nr > scores[score_index_of(scores, id)].1 {
            scores.update(score_index_of(scores, id), (id, nr, path, w))
        } else {
            scores
        }
    } else {
        scores.push((id, nr, path, w))
    }
}

/// Offer a relevance to the score table, keeping the best per concept.
fn update_score(scores: &mut Vec<BfsScore>, id: ConceptId, nr: u64, path: Vec<ConceptId>, w: u64)
    requires
        forall|a: int, b: int|
            0 <= a < b < old(scores)@.len() ==> old(scores)@[a].id != old(scores)@[b].id,
    ensures
        sview(final(scores)@) == score_upd(sview(old(scores)@), id, nr, path@, w),
        forall|a: int, b: int|
            0 <= a < b < final(scores)@.len() ==> final(scores)@[a].id != final(scores)@[b].id,
        forall|k: int|
            0 <= k < final(scores)@.len() ==> {
                let e = #[trigger] final(scores)@[k];
                (e.id == id && e.relevance == nr && e.path@ == path@ && e.strength == w)
                    || exists|m: int|
                    0 <= m < old(scores)@.len() && (#[trigger] old(scores)@[m]).id == e.id
                        && old(scores)@[m].relevance == e.relevance && old(scores)@[m].path@
                        == e.path@ && old(scores)@[m].strength == e.strength
            },
{
    let ghost s0 = scores@;
    let ghost sv0 = sview(s0);
    let mut i: usize = 0;
    while i < scores.len()
        invariant
            i <= s0.len(),
            scores@ == s0,
            s0 == old(scores)@,
            sv0 == sview(s0),
            forall|a: int, b: int| 0 <= a < b < s0.len() ==> s0[a].id != s0[b].id,
            forall|j: int| 0 <= j < i ==> s0[j].id != id,
        decreases s0.len() - i,
    {
        if scores[i].id == id {
            proof {
                assert(sv0[i as int].0 == id);
                assert forall|a: int, b: int| 0 <= a < b < sv0.len() implies sv0[a].0
                    != sv0[b].0 by {
                    assert(sv0[a].0 == s0[a].id && sv0[b].0 == s0[b].id);
                }
                lemma_score_index(sv0, id, i as int);
            }
            if nr > scores[i].relevance {
                scores[i] = BfsScore { id, relevance: nr, path, strength: w };
                proof {
                    assert(sview(scores@) =~~= score_upd(sv0, id, nr, path@, w));
                    assert forall|a: int, b: int| 0 <= a < b < scores@.len() implies
                        scores@[a].id != scores@[b].id by {
                        assert(scores@[a].id == s0[a].id);
                        assert(scores@[b].id == s0[b].id);
                    }
                    assert forall|k: int| 0 <= k < scores@.len() implies {
                        let e = #[trigger] scores@[k];
                        (e.id == id && e.relevance == nr && e.path@ == path@ && e.strength == w)
                            || exists|m: int|
                            0 <= m < s0.len() && (#[trigger] s0[m]).id == e.id
                                && s0[m].relevance == e.relevance && s0[m].path@ == e.path@
                                && s0[m].strength == e.strength
                    } by {
                        if k != i {
                            assert(scores@[k] == s0[k]);
                            assert(s0[k].id == scores@[k].id);
                        }
                    }
                }
            } else {
                proof {
                    assert(sview(scores@) =~~= score_upd(sv0, id, nr, path@, w));
                    assert forall|k: int| 0 <= k < scores@.len() implies {
                        let e = #[trigger] scores@[k];
                        (e.id == id && e.relevance == nr && e.path@ == path@ && e.strength == w)
                            || exists|m: int|
                            0 <= m < s0.len() && (#[trigger] s0[m]).id == e.id
                                && s0[m].relevance == e.relevance && s0[m].path@ == e.path@
                                && s0[m].strength == e.strength
                    } by {
                        assert(s0[k].id == scores@[k].id);
                    }
                }
            }
            return ;
        }
        i = i + 1;
    }
    scores.push(BfsScore { id, relevance: nr, path, strength: w });
    proof {
        assert(!has_score(sv0, id)) by {
            if has_score(sv0, id) {
                let j = score_index_of(sv0, id);
                assert(s0[j].id == id);
            }
        }
        assert(sview(scores@) =~~= score_upd(sv0, id, nr, path@, w));
        assert forall|a: int, b: int| 0 <= a < b < scores@.len() implies scores@[a].id
            != scores@[b].id by {
            if b < s0.len() {
                assert(scores@[a] == s0[a] && scores@[b] == s0[b]);
            } else {
                assert(scores@[b].id == id);
                assert(scores@[a] == s0[a]);
            }
        }
        assert forall|k: int| 0 <= k < scores@.len() implies {
            let e = #[trigger] scores@[k];
            (e.id == id && e.relevance == nr && e.path@ == path@ && e.strength == w) || exists|
                m: int,
            |
                0 <= m < s0.len() && (#[trigger] s0[m]).id == e.id && s0[m].relevance
                    == e.relevance && s0[m].path@ == e.path@ && s0[m].strength == e.strength
        } by {
            if k < s0.len() {
                assert(scores@[k] == s0[k]);
                assert(s0[k].id == scores@[k].id);
            }
        }
    }
}

/// Copy a list of identifiers.
fn clone_ids(v: &Vec<ConceptId>) -> (r: Vec<ConceptId>)
    ensures
        r@ == v@,
{
    let mut out: Vec<ConceptId> = Vec::new();
    let mut i: usize = 0;
    while i < v.len()
        invariant
            i <= v@.len(),
            out@ =~= v@.take(i as int),
        decreases v@.len() - i,
    {
        out.push(v[i]);
        proof {
            assert(out@ =~= v@.take(i as int + 1));
        }
        i = i + 1;
    }
    proof {
        assert(v@.take(v@.len() as int) =~= v@);
    }
    out
}

/// The relevance of stepping across an edge of weight `w` at depth `d`:
/// `relevance * w * 0.8^d` in fixed point.
pub open spec fn step_relevance(relevance: u64, w: u64, degradation: u64) -> u64 {
    ((((relevance * w) as int / (UNIT as int)) * degradation) as int / (UNIT as int)) as u64
}

/// `0.8^depth` in fixed point.
pub open spec fn degradation_of(depth: int) -> u64
    decreases depth,
{
    if depth <= 0 {
        UNIT
    } else {
        ((degradation_of(depth - 1) * 800_000) as int / (UNIT as int)) as u64
    }
}

/// Compute `0.8^depth` in fixed point.
fn degradation_exec(depth: usize) -> (r: u64)
    ensures
        r == degradation_of(depth as int),
        r <= UNIT,
{
    let mut deg: u64 = UNIT;
    let mut d: usize = 0;
    while d < depth
        invariant
            d <= depth,
            deg == degradation_of(d as int),
            deg <= UNIT,
        decreases depth - d,
    {
        deg = deg * 800_000 / UNIT;
        d = d + 1;
    }
    deg
}

/// One edge of one breadth-first expansion: an active edge incident to the
/// current concept offers the degraded relevance to the other endpoint and,
/// when the offer meets the relevance floor and the endpoint is unseen,
/// enqueues it one level deeper.
pub open spec fn bfs_edge(
    e: SynapticEdge,
    cur: (ConceptId, u64, Seq<ConceptId>, int),
    queue: Seq<(ConceptId, u64, Seq<ConceptId>, int)>,
    visited: Seq<ConceptId>,
    scores: Seq<(ConceptId, u64, Seq<ConceptId>, u64)>,
    min_relevance: u64,
) -> (
    Seq<(ConceptId, u64, Seq<ConceptId>, int)>,
    Seq<ConceptId>,
    Seq<(ConceptId, u64, Seq<ConceptId>, u64)>,
) {
    if (e.from == cur.0 || e.to == cur.0) && e.weight.0 > ACTIVITY_THRESHOLD {
        let t = if e.from == cur.0 {
            e.to
        } else {
            e.from
        };
        let nr = step_relevance(cur.1, e.weight.0, degradation_of(cur.3));
        let np = cur.2.push(t);
        let sc = score_upd(scores, t, nr, np, e.weight.0);
        if nr >= min_relevance && !visited.contains(t) {
            (queue.push((t, nr, np, cur.3 + 1)), visited.push(t), sc)
        } else {
            (queue, visited, sc)
        }
    } else {
        (queue, visited, scores)
    }
}

/// The edges from index `j` on, applied in order.
pub open spec fn bfs_edges(
    es: Seq<SynapticEdge>,
    j: int,
    cur: (ConceptId, u64, Seq<ConceptId>, int),
    queue: Seq<(ConceptId, u64, Seq<ConceptId>, int)>,
    visited: Seq<ConceptId>,
    scores: Seq<(ConceptId, u64, Seq<ConceptId>, u64)>,
    min_relevance: u64,
) -> (
    Seq<(ConceptId, u64, Seq<ConceptId>, int)>,
    Seq<ConceptId>,
    Seq<(ConceptId, u64, Seq<ConceptId>, u64)>,
)
    decreases es.len() - j,
{
    if j < 0 || j >= es.len() {
        (queue, visited, scores)
    } else {
        let p = bfs_edge(es[j], cur, queue, visited, scores, min_relevance);
        bfs_edges(es, j + 1, cur, p.0, p.1, p.2, min_relevance)
    }
}

/// One dequeue of the breadth-first traversal: the item at the head is
/// expanded across every edge unless it already sits at the depth bound.
pub open spec fn bfs_step(
    es: Seq<SynapticEdge>,
    queue: Seq<(ConceptId, u64, Seq<ConceptId>, int)>,
    head: int,
    visited: Seq<ConceptId>,
    scores: Seq<(ConceptId, u64, Seq<ConceptId>, u64)>,
    max_path_length: int,
    min_relevance: u64,
) -> (
    Seq<(ConceptId, u64, Seq<ConceptId>, int)>,
    int,
    Seq<ConceptId>,
    Seq<(ConceptId, u64, Seq<ConceptId>, u64)>,
) {
    let cur = queue[head];
    if cur.3 >= max_path_length {
        (queue, head + 1, visited, scores)
    } else {
        let p = bfs_edges(es, 0, cur, queue, visited, scores, min_relevance);
        (p.0, head + 1, p.1, p.2)
    }
}

/// The traversal run to completion (the fuel bounds the dequeues; any fuel
/// at least the number of concepts plus one is enough).
pub open spec fn bfs_run(
    es: Seq<SynapticEdge>,
    queue: Seq<(ConceptId, u64, Seq<ConceptId>, int)>,
    head: int,
    visited: Seq<ConceptId>,
    scores: Seq<(ConceptId, u64, Seq<ConceptId>, u64)>,
    max_path_length: int,
    min_relevance: u64,
    fuel: nat,
) -> (
    Seq<(ConceptId, u64, Seq<ConceptId>, int)>,
    int,
    Seq<ConceptId>,
    Seq<(ConceptId, u64, Seq<ConceptId>, u64)>,
)
    decreases fuel,
{
    if fuel == 0 || head >= queue.len() {
        (queue, head, visited, scores)
    } else {
        let p = bfs_step(es, queue, head, visited, scores, max_path_length, min_relevance);
        bfs_run(es, p.0, p.1, p.2, p.3, max_path_length, min_relevance, (fuel - 1) as nat)
    }
}

/// The score table that associative recall ranks: the traversal starting
/// from the source at full relevance, run over the edges of both zones.
pub open spec fn bfs_final_scores(
    es: Seq<SynapticEdge>,
    source: ConceptId,
    max_path_length: int,
    min_relevance: u64,
    fuel: nat,
) -> Seq<(ConceptId, u64, Seq<ConceptId>, u64)> {
    bfs_run(
        es,
        seq![(source, UNIT, seq![source], 0int)],
        0,
        seq![source],
        Seq::empty(),
        max_path_length,
        min_relevance,
        fuel,
    ).3
}

/// A raw relevance with the recency boost applied when requested.
pub open spec fn boosted_score(
    raw: u64,
    id: ConceptId,
    cs: Seq<Concept>,
    boost: bool,
    now: i64,
) -> u64 {
    if boost {
        recency_boosted(raw, concept_lookup(cs, id).last_accessed, now)
    } else {
        raw
    }
}

impl MemoryGraph {
    /// Associative recall: mark the source as accessed, then walk the graph
    /// breadth-first across active edges in both zones, degrading relevance
    /// with each hop, keeping each reached concept's best offered relevance
    /// and the path that produced it ([`bfs_final_scores`]).  Concepts whose
    /// relevance meets the floor are ranked by their (optionally
    /// recency-boosted) score, descending, and the list is truncated to the
    /// best `max_results`.  The source itself is never a result and appears
    /// in a path only at its start.
    #[verifier::rlimit(100)]
    #[verifier::spinoff_prover]
    pub fn recall(&mut self, source_concept_id: ConceptId, query: RecallQuery, now: i64) -> (r:
        Vec<RecallResult>)
        requires
            old(self).wf(),
        ensures
            final(self).wf(),
            !has_concept_id(old(self).concepts@, source_concept_id) ==> *final(self) == *old(
                self,
            ),
            has_concept_id(old(self).concepts@, source_concept_id) ==> {
                &&& concept_eq(
                    concept_lookup(final(self).concepts@, source_concept_id),
                    accessed_concept(
                        concept_lookup(old(self).concepts@, source_concept_id),
                        now,
                    ),
                )
                &&& concepts_same_except(
                    old(self).concepts@,
                    final(self).concepts@,
                    source_concept_id,
                )
                &&& final(self).short_term_edges@ == strengthen_incident(
                    old(self).short_term_edges@,
                    source_concept_id,
                    old(self).config.learning_rate,
                    now,
                )
                &&& final(self).long_term_edges@ == strengthen_incident(
                    old(self).long_term_edges@,
                    source_concept_id,
                    old(self).config.learning_rate,
                    now,
                )
            },
            ({
                let fs = bfs_final_scores(
                    final(self).short_term_edges@ + final(self).long_term_edges@,
                    source_concept_id,
                    query.max_path_length as int,
                    query.min_relevance,
                    (old(self).concepts@.len() + 1) as nat,
                );
                let cs1 = final(self).concepts@;
                let qcount = fs.filter(
                    |sc: (ConceptId, u64, Seq<ConceptId>, u64)|
                        sc.1 >= query.min_relevance && sc.0 != source_concept_id,
                ).len() as int;
                &&& r@.len() == (match query.max_results {
                    Some(m) => if qcount <= m {
                        qcount
                    } else {
                        m as int
                    },
                    None => qcount,
                })
                &&& forall|k: int|
                    0 <= k < r@.len() ==> {
                        let res = #[trigger] r@[k];
                        let sc = score_lookup(fs, res.concept.id);
                        &&& has_concept_id(cs1, res.concept.id)
                        &&& concept_eq(res.concept, concept_lookup(cs1, res.concept.id))
                        &&& res.concept.id != source_concept_id
                        &&& has_score(fs, res.concept.id)
                        &&& sc.1 >= query.min_relevance
                        &&& res.relevance_score == boosted_score(
                            sc.1,
                            res.concept.id,
                            cs1,
                            query.boost_recent_memories,
                            now,
                        )
                        &&& res.association_path@ == sc.2
                        &&& res.connection_strength == sc.3
                        &&& res.association_path@.len() >= 2
                        &&& res.association_path@.len() <= query.max_path_length + 1
                        &&& res.association_path@[0] == source_concept_id
                        &&& res.association_path@.last() == res.concept.id
                        &&& forall|i: int|
                            1 <= i < res.association_path@.len()
                                ==> res.association_path@[i] != source_concept_id
                    }
                &&& forall|j: int|
                    0 <= j < fs.len() && (#[trigger] fs[j]).1 >= query.min_relevance && fs[j].0
                        != source_concept_id ==> (exists|k: int|
                        0 <= k < r@.len() && (#[trigger] r@[k]).concept.id == fs[j].0) || (
                    query.max_results.is_some() && r@.len() == query.max_results.unwrap() && (
                    r@.len() == 0 || boosted_score(
                        fs[j].1,
                        fs[j].0,
                        cs1,
                        query.boost_recent_memories,
                        now,
                    ) <= r@[r@.len() - 1].relevance_score))
            }),
            forall|i: int, j: int|
                0 <= i < j < r@.len() ==> r@[i].relevance_score >= r@[j].relevance_score,
            forall|i: int, j: int| 0 <= i < j < r@.len() ==> r@[i].concept.id != r@[j].concept.id,
    {
        let ghost g0 = *self;
        let source = source_concept_id;
        let _ = self.access_concept(source, now);
        proof {
            if !has_concept_id(g0.concepts@, source) {
                assert(*self == g0);
            }
        }
        let ghost cs = self.concepts@;
        let mut all_edges: Vec<SynapticEdge> = Vec::new();
        let mut z: usize = 0;
        while z < self.short_term_edges.len()
            invariant
                z <= self.short_term_edges@.len(),
                all_edges@ =~= self.short_term_edges@.take(z as int),
            decreases self.short_term_edges@.len() - z,
        {
            all_edges.push(self.short_term_edges[z]);
            proof {
                assert(all_edges@ =~= self.short_term_edges@.take(z as int + 1));
            }
            z = z + 1;
        }
        let mut z2: usize = 0;
        while z2 < self.long_term_edges.len()
            invariant
                z2 <= self.long_term_edges@.len(),
                all_edges@ =~= self.short_term_edges@ + self.long_term_edges@.take(z2 as int),
            decreases self.long_term_edges@.len() - z2,
        {
            all_edges.push(self.long_term_edges[z2]);
            proof {
                assert(all_edges@ =~= self.short_term_edges@ + self.long_term_edges@.take(
                    z2 as int + 1,
                ));
            }
            z2 = z2 + 1;
        }
        proof {
            assert(all_edges@ =~= self.short_term_edges@ + self.long_term_edges@);
            assert forall|k: int| 0 <= k < all_edges@.len() implies (
            #[trigger] all_edges@[k]).wf() && has_concept_id(cs, all_edges@[k].from)
                && has_concept_id(cs, all_edges@[k].to) by {
                if k < self.short_term_edges@.len() {
                    assert(all_edges@[k] == self.short_term_edges@[k]);
                } else {
                    assert(all_edges@[k] == self.long_term_edges@[k
                        - self.short_term_edges@.len()]);
                }
            }
        }
        let ghost es = all_edges@;
        let ghost universe = cs.map_values(|c: Concept| c.id).push(source);
        let ghost fuel0: int = cs.len() as int + 1;
        let mut visited: Vec<ConceptId> = Vec::new();
        visited.push(source);
        let mut queue: Vec<BfsItem> = Vec::new();
        let mut first_path: Vec<ConceptId> = Vec::new();
        first_path.push(source);
        queue.push(BfsItem { id: source, relevance: UNIT, path: first_path, depth: 0 });
        let mut scores: Vec<BfsScore> = Vec::new();
        let mut head: usize = 0;
        proof {
            assert(universe.contains(source)) by {
                assert(universe[universe.len() - 1] == source);
            }
            assert(qview(queue@) =~= seq![(source, UNIT, seq![source], 0int)]) by {
                assert(queue@[0].path@ =~= seq![source]);
            }
            assert(sview(scores@) =~= Seq::<(ConceptId, u64, Seq<ConceptId>, u64)>::empty());
            assert(visited@ =~= seq![source]);
        }
        let ghost target = bfs_run(
            es,
            seq![(source, UNIT, seq![source], 0int)],
            0,
            seq![source],
            Seq::empty(),
            query.max_path_length as int,
            query.min_relevance,
            fuel0 as nat,
        );
        while head < queue.len()
            invariant
                self.wf(),
                cs == self.concepts@,
                es == all_edges@,
                universe == cs.map_values(|c: Concept| c.id).push(source),
                fuel0 == cs.len() as int + 1,
                forall|k: int|
                    0 <= k < es.len() ==> (#[trigger] es[k]).wf() && has_concept_id(
                        cs,
                        es[k].from,
                    ) && has_concept_id(cs, es[k].to),
                head <= queue@.len(),
                queue@.len() == visited@.len(),
                visited@.len() <= universe.len(),
                visited@.len() >= 1,
                visited@[0] == source,
                forall|a: int, b: int| 0 <= a < b < visited@.len() ==> visited@[a] != visited@[b],
                forall|k: int|
                    0 <= k < visited@.len() ==> universe.contains(#[trigger] visited@[k]),
                forall|k: int|
                    0 <= k < queue@.len() ==> {
                        let it = #[trigger] queue@[k];
                        &&& it.path@.len() == it.depth + 1
                        &&& it.path@[0] == source
                        &&& forall|i2: int| 1 <= i2 < it.path@.len() ==> it.path@[i2] != source
                        &&& it.path@.last() == it.id
                        &&& it.depth <= query.max_path_length
                        &&& it.relevance <= UNIT
                    },
                forall|k: int|
                    0 <= k < scores@.len() ==> {
                        let sc = #[trigger] scores@[k];
                        &&& has_concept_id(cs, sc.id)
                        &&& sc.path@.len() >= 2
                        &&& sc.path@.len() <= query.max_path_length + 1
                        &&& sc.path@[0] == source
                        &&& forall|i2: int|
                            1 <= i2 < sc.path@.len() - 1 ==> sc.path@[i2] != source
                        &&& sc.path@.last() == sc.id
                        &&& sc.relevance <= UNIT
                        &&& sc.strength <= UNIT
                    },
                forall|a: int, b: int|
                    0 <= a < b < scores@.len() ==> scores@[a].id != scores@[b].id,
                bfs_run(
                    es,
                    qview(queue@),
                    head as int,
                    visited@,
                    sview(scores@),
                    query.max_path_length as int,
                    query.min_relevance,
                    (fuel0 - head) as nat,
                ) == target,
            decreases universe.len() + 1 - visited@.len(), queue@.len() - head,
        {
            let ghost snap_q = qview(queue@);
            let ghost snap_v = visited@;
            let ghost snap_s = sview(scores@);
            let depth = queue[head].depth;
            if depth >= query.max_path_length {
                proof {
                    assert((fuel0 - head) as nat > 0) by {
                        assert(head < queue@.len());
                        assert(queue@.len() <= fuel0);
                    }
                    assert(bfs_step(
                        es,
                        snap_q,
                        head as int,
                        snap_v,
                        snap_s,
                        query.max_path_length as int,
                        query.min_relevance,
                    ) == (snap_q, head as int + 1, snap_v, snap_s)) by {
                        assert(snap_q[head as int].3 == queue@[head as int].depth as int);
                    }
                }
                head = head + 1;
                continue ;
            }
            let cur_id = queue[head].id;
            let cur_rel = queue[head].relevance;
            let ghost cur_path = queue@[head as int].path@;
            let ghost curitem = (cur_id, cur_rel, cur_path, depth as int);
            proof {
                assert(snap_q[head as int] == curitem);
            }
            let deg = degradation_exec(depth);
            let mut j: usize = 0;
            while j < all_edges.len()
                invariant
                    j <= es.len(),
                    self.wf(),
                    cs == self.concepts@,
                    es == all_edges@,
                    universe == cs.map_values(|c: Concept| c.id).push(source),
                    fuel0 == cs.len() as int + 1,
                    forall|k: int|
                        0 <= k < es.len() ==> (#[trigger] es[k]).wf() && has_concept_id(
                            cs,
                            es[k].from,
                        ) && has_concept_id(cs, es[k].to),
                    head < queue@.len(),
                    queue@.len() == visited@.len(),
                    visited@.len() <= universe.len(),
                    visited@.len() >= 1,
                    visited@[0] == source,
                    forall|a: int, b: int|
                        0 <= a < b < visited@.len() ==> visited@[a] != visited@[b],
                    forall|k: int|
                        0 <= k < visited@.len() ==> universe.contains(#[trigger] visited@[k]),
                    forall|k: int|
                        0 <= k < queue@.len() ==> {
                            let it = #[trigger] queue@[k];
                            &&& it.path@.len() == it.depth + 1
                            &&& it.path@[0] == source
                            &&& forall|i2: int|
                                1 <= i2 < it.path@.len() ==> it.path@[i2] != source
                            &&& it.path@.last() == it.id
                            &&& it.depth <= query.max_path_length
                            &&& it.relevance <= UNIT
                        },
                    forall|k: int|
                        0 <= k < scores@.len() ==> {
                            let sc = #[trigger] scores@[k];
                            &&& has_concept_id(cs, sc.id)
                            &&& sc.path@.len() >= 2
                            &&& sc.path@.len() <= query.max_path_length + 1
                            &&& sc.path@[0] == source
                            &&& forall|i2: int|
                                1 <= i2 < sc.path@.len() - 1 ==> sc.path@[i2] != source
                            &&& sc.path@.last() == sc.id
                            &&& sc.relevance <= UNIT
                            &&& sc.strength <= UNIT
                        },
                    forall|a: int, b: int|
                        0 <= a < b < scores@.len() ==> scores@[a].id != scores@[b].id,
                    queue@[head as int].id == cur_id,
                    queue@[head as int].relevance == cur_rel,
                    queue@[head as int].path@ == cur_path,
                    queue@[head as int].depth == depth,
                    depth < query.max_path_length,
                    cur_rel <= UNIT,
                    deg == degradation_of(depth as int),
                    deg <= UNIT,
                    curitem == (cur_id, cur_rel, cur_path, depth as int),
                    cur_path.len() == depth + 1,
                    cur_path[0] == source,
                    forall|i2: int| 1 <= i2 < cur_path.len() ==> cur_path[i2] != source,
                    bfs_edges(
                        es,
                        j as int,
                        curitem,
                        qview(queue@),
                        visited@,
                        sview(scores@),
                        query.min_relevance,
                    ) == bfs_edges(es, 0, curitem, snap_q, snap_v, snap_s, query.min_relevance),
                    bfs_run(
                        es,
                        snap_q,
                        head as int,
                        snap_v,
                        snap_s,
                        query.max_path_length as int,
                        query.min_relevance,
                        (fuel0 - head) as nat,
                    ) == target,
                    snap_q[head as int] == curitem,
                    snap_q.len() == snap_v.len(),
                    snap_v.len() <= visited@.len(),
                decreases es.len() - j,
            {
                let e = all_edges[j];
                proof {
                    assert(e == es[j as int]);
                    assert(e.wf());
                }
                let ghost q_pre = qview(queue@);
                let ghost v_pre = visited@;
                let ghost s_pre = sview(scores@);
                if (e.from == cur_id || e.to == cur_id) && e.weight.value() > ACTIVITY_THRESHOLD {
                    let t = if e.from == cur_id {
                        e.to
                    } else {
                        e.from
                    };
                    let w = e.weight.value();
                    assert(cur_rel * w <= 1_000_000 * 1_000_000 && cur_rel * w / 1_000_000
                        <= 1_000_000) by (nonlinear_arith)
                        requires
                            cur_rel <= 1_000_000,
                            w <= 1_000_000,
                    ;
                    let nr1 = cur_rel * w / UNIT;
                    assert(nr1 * deg <= 1_000_000 * 1_000_000 && nr1 * deg / 1_000_000
                        <= 1_000_000) by (nonlinear_arith)
                        requires
                            nr1 <= 1_000_000,
                            deg <= 1_000_000,
                    ;
                    let nr = nr1 * deg / UNIT;
                    proof {
                        assert(nr == step_relevance(cur_rel, w, deg));
                    }
                    let mut sp = clone_ids(&queue[head].path);
                    sp.push(t);
                    proof {
                        assert(sp@ =~= cur_path.push(t));
                    }
                    update_score(&mut scores, t, nr, sp, w);
                    proof {
                        assert forall|k: int| 0 <= k < scores@.len() implies {
                            let sc = #[trigger] scores@[k];
                            &&& has_concept_id(cs, sc.id)
                            &&& sc.path@.len() >= 2
                            &&& sc.path@.len() <= query.max_path_length + 1
                            &&& sc.path@[0] == source
                            &&& forall|i2: int|
                                1 <= i2 < sc.path@.len() - 1 ==> sc.path@[i2] != source
                            &&& sc.path@.last() == sc.id
                            &&& sc.relevance <= UNIT
                            &&& sc.strength <= UNIT
                        } by {
                            let sc = scores@[k];
                            if sc.id == t && sc.relevance == nr && sc.path@ == cur_path.push(t)
                                && sc.strength == w {
                                assert(sc.path@.last() == t);
                                assert forall|i2: int|
                                    1 <= i2 < sc.path@.len() - 1 implies sc.path@[i2]
                                    != source by {
                                    assert(sc.path@[i2] == cur_path[i2]);
                                }
                            } else {
                            }
                        }
                    }
                    let enq = nr >= query.min_relevance && !crate::forgetting::id_in_list(
                        &visited,
                        t,
                    );
                    if enq {
                        visited.push(t);
                        proof {
                            assert(universe.contains(t)) by {
                                let ci = crate::graph::concept_index_of(cs, t);
                                assert(universe[ci] == cs[ci].id);
                            }
                            lemma_distinct_in_universe(visited@, universe);
                            assert(visited@[0] == source);
                        }
                        let mut qp = clone_ids(&queue[head].path);
                        qp.push(t);
                        queue.push(
                            BfsItem { id: t, relevance: nr, path: qp, depth: depth + 1 },
                        );
                        proof {
                            assert(t != source) by {
                                assert(v_pre[0] == source);
                                assert(v_pre.contains(source));
                            }
                            assert(qview(queue@) =~~= q_pre.push(
                                (t, nr, cur_path.push(t), depth as int + 1),
                            ));
                            assert forall|k: int| 0 <= k < queue@.len() implies {
                                let it = #[trigger] queue@[k];
                                &&& it.path@.len() == it.depth + 1
                                &&& it.path@[0] == source
                                &&& forall|i2: int|
                                    1 <= i2 < it.path@.len() ==> it.path@[i2] != source
                                &&& it.path@.last() == it.id
                                &&& it.depth <= query.max_path_length
                                &&& it.relevance <= UNIT
                            } by {
                                if k < queue@.len() - 1 {
                                } else {
                                    let it = queue@[k];
                                    assert(it.path@ =~= cur_path.push(t));
                                    assert(it.path@.last() == t);
                                    assert forall|i2: int|
                                        1 <= i2 < it.path@.len() implies it.path@[i2]
                                        != source by {
                                        if i2 < it.path@.len() - 1 {
                                            assert(it.path@[i2] == cur_path[i2]);
                                        } else {
                                            assert(it.path@[i2] == t);
                                        }
                                    }
                                }
                            }
                        }
                    }
                    proof {
                        let trip = bfs_edge(
                            es[j as int],
                            curitem,
                            q_pre,
                            v_pre,
                            s_pre,
                            query.min_relevance,
                        );
                        assert(qview(queue@) =~~= trip.0);
                        assert(visited@ =~= trip.1);
                        assert(sview(scores@) =~~= trip.2);
                    }
                } else {
                    proof {
                        let trip = bfs_edge(
                            es[j as int],
                            curitem,
                            q_pre,
                            v_pre,
                            s_pre,
                            query.min_relevance,
                        );
                        assert(qview(queue@) == trip.0);
                        assert(visited@ == trip.1);
                        assert(sview(scores@) == trip.2);
                    }
                }
                j = j + 1;
            }
            proof {
                assert(bfs_edges(
                    es,
                    es.len() as int,
                    curitem,
                    qview(queue@),
                    visited@,
                    sview(scores@),
                    query.min_relevance,
                ) == (qview(queue@), visited@, sview(scores@)));
                assert((fuel0 - head) as nat > 0) by {
                    assert(head < snap_q.len());
                    assert(snap_q.len() == snap_v.len());
                    assert(snap_v.len() <= fuel0);
                }
                assert(bfs_step(
                    es,
                    snap_q,
                    head as int,
                    snap_v,
                    snap_s,
                    query.max_path_length as int,
                    query.min_relevance,
                ) == (qview(queue@), head as int + 1, visited@, sview(scores@)));
            }
            head = head + 1;
        }
        proof {
            assert(sview(scores@) == target.3);
            assert(target.3 == bfs_final_scores(
                self.short_term_edges@ + self.long_term_edges@,
                source,
                query.max_path_length as int,
                query.min_relevance,
                (g0.concepts@.len() + 1) as nat,
            )) by {
                assert(es == self.short_term_edges@ + self.long_term_edges@);
                assert(cs.len() == g0.concepts@.len());
            }
        }
        let ghost fs = sview(scores@);
        // Harvest: drop the source and low scores, boost, sort, truncate.
        let mut pairs: Vec<(u64, usize)> = Vec::new();
        let mut m: usize = 0;
        while m < scores.len()
            invariant
                m <= scores@.len(),
                cs == self.concepts@,
                self.wf(),
                fs == sview(scores@),
                fs.len() == scores@.len(),
                forall|k: int|
                    0 <= k < scores@.len() ==> {
                        let sc = #[trigger] scores@[k];
                        &&& has_concept_id(cs, sc.id)
                        &&& sc.path@.len() >= 2
                        &&& sc.path@.len() <= query.max_path_length + 1
                        &&& sc.path@[0] == source
                        &&& forall|i2: int|
                            1 <= i2 < sc.path@.len() - 1 ==> sc.path@[i2] != source
                        &&& sc.path@.last() == sc.id
                        &&& sc.relevance <= UNIT
                        &&& sc.strength <= UNIT
                    },
                forall|a: int, b: int|
                    0 <= a < b < scores@.len() ==> scores@[a].id != scores@[b].id,
                pairs@.len() == fs.take(m as int).filter(
                    |sc: (ConceptId, u64, Seq<ConceptId>, u64)|
                        sc.1 >= query.min_relevance && sc.0 != source,
                ).len(),
                forall|k: int|
                    0 <= k < pairs@.len() ==> {
                        let p = #[trigger] pairs@[k];
                        &&& p.1 < scores@.len()
                        &&& scores@[p.1 as int].id != source
                        &&& scores@[p.1 as int].relevance >= query.min_relevance
                        &&& p.0 == boosted_score(
                            scores@[p.1 as int].relevance,
                            scores@[p.1 as int].id,
                            cs,
                            query.boost_recent_memories,
                            now,
                        )
                    },
                forall|a: int, b: int| 0 <= a < b < pairs@.len() ==> pairs@[a].1 < pairs@[b].1,
                forall|k: int| 0 <= k < pairs@.len() ==> (#[trigger] pairs@[k]).1 < m,
                forall|j2: int|
                    0 <= j2 < m && (#[trigger] fs[j2]).1 >= query.min_relevance && fs[j2].0
                        != source ==> exists|k: int|
                        0 <= k < pairs@.len() && (#[trigger] pairs@[k]).1 == j2,
            decreases scores@.len() - m,
        {
            proof {
                lemma_take_filter_step(
                    fs,
                    |sc: (ConceptId, u64, Seq<ConceptId>, u64)|
                        sc.1 >= query.min_relevance && sc.0 != source,
                    m as int,
                );
                assert(fs[m as int] == (scores@[m as int].id, scores@[m as int].relevance,
                    scores@[m as int].path@, scores@[m as int].strength));
            }
            let keep = scores[m].relevance >= query.min_relevance && !(scores[m].id == source);
            if keep {
                let boosted = if query.boost_recent_memories {
                    match find_concept(&self.concepts, scores[m].id) {
                        Some(ci) => {
                            proof {
                                lemma_concept_index(cs, scores@[m as int].id, ci as int);
                            }
                            recency_boosted_exec(
                                scores[m].relevance,
                                self.concepts[ci].last_accessed,
                                now,
                            )
                        },
                        None => {
                            proof {
                                assert(false);
                            }
                            scores[m].relevance
                        },
                    }
                } else {
                    scores[m].relevance
                };
                let ghost pairs0 = pairs@;
                pairs.push((boosted, m));
                proof {
                    assert forall|j2: int|
                        0 <= j2 < m + 1 && (#[trigger] fs[j2]).1 >= query.min_relevance
                            && fs[j2].0 != source implies exists|k: int|
                            0 <= k < pairs@.len() && (#[trigger] pairs@[k]).1 == j2 by {
                        if j2 < m {
                            let k = choose|k: int|
                                0 <= k < pairs0.len() && (#[trigger] pairs0[k]).1 == j2;
                            assert(pairs@[k].1 == j2);
                        } else {
                            assert(pairs@[pairs@.len() - 1].1 == j2);
                        }
                    }
                }
            }
            m = m + 1;
        }
        proof {
            assert(fs.take(fs.len() as int) =~= fs);
        }
        let ghost pre_pairs = pairs@;
        let mut sorted = sort_scores_desc(pairs);
        let ghost pre_trunc = sorted@;
        proof {
            broadcast use vstd::seq_lib::group_to_multiset_ensures;
            broadcast use vstd::multiset::group_multiset_axioms;

            assert forall|k: int| 0 <= k < sorted@.len() implies {
                let p = #[trigger] sorted@[k];
                &&& p.1 < scores@.len()
                &&& scores@[p.1 as int].id != source
                &&& scores@[p.1 as int].relevance >= query.min_relevance
                &&& p.0 == boosted_score(
                    scores@[p.1 as int].relevance,
                    scores@[p.1 as int].id,
                    cs,
                    query.boost_recent_memories,
                    now,
                )
            } by {
                assert(sorted@.contains(sorted@[k]));
                assert(sorted@.to_multiset().count(sorted@[k]) > 0);
                assert(pre_pairs.to_multiset().count(sorted@[k]) > 0);
                assert(pre_pairs.contains(sorted@[k]));
                let k2 = choose|k2: int| 0 <= k2 < pre_pairs.len() && pre_pairs[k2] == sorted@[k];
            }
            assert forall|a: int, b: int| 0 <= a < b < sorted@.len() implies sorted@[a].1
                != sorted@[b].1 by {
                if sorted@[a] == sorted@[b] {
                    pre_pairs.lemma_multiset_has_no_duplicates();
                    sorted@.lemma_multiset_has_no_duplicates_conv();
                } else if sorted@[a].1 == sorted@[b].1 {
                    assert(sorted@[a].0 == boosted_score(
                        scores@[sorted@[a].1 as int].relevance,
                        scores@[sorted@[a].1 as int].id,
                        cs,
                        query.boost_recent_memories,
                        now,
                    ));
                }
            }
        }
        let cap = match query.max_results {
            Some(mr) => mr,
            None => sorted.len(),
        };
        if sorted.len() > cap {
            sorted.truncate(cap);
        }
        proof {
            assert(sorted@ =~= pre_trunc.take(sorted@.len() as int));
        }
        let mut results: Vec<RecallResult> = Vec::new();
        let mut k: usize = 0;
        while k < sorted.len()
            invariant
                k <= sorted@.len(),
                cs == self.concepts@,
                self.wf(),
                fs == sview(scores@),
                fs.len() == scores@.len(),
                sorted@ == pre_trunc.take(sorted@.len() as int),
                sorted@.len() <= pre_trunc.len(),
                forall|kk: int|
                    0 <= kk < scores@.len() ==> {
                        let sc = #[trigger] scores@[kk];
                        &&& has_concept_id(cs, sc.id)
                        &&& sc.path@.len() >= 2
                        &&& sc.path@.len() <= query.max_path_length + 1
                        &&& sc.path@[0] == source
                        &&& forall|i2: int|
                            1 <= i2 < sc.path@.len() - 1 ==> sc.path@[i2] != source
                        &&& sc.path@.last() == sc.id
                        &&& sc.relevance <= UNIT
                        &&& sc.strength <= UNIT
                    },
                forall|a: int, b: int|
                    0 <= a < b < scores@.len() ==> scores@[a].id != scores@[b].id,
                forall|kk: int|
                    0 <= kk < pre_trunc.len() ==> {
                        let p = #[trigger] pre_trunc[kk];
                        &&& p.1 < scores@.len()
                        &&& scores@[p.1 as int].id != source
                        &&& scores@[p.1 as int].relevance >= query.min_relevance
                        &&& p.0 == boosted_score(
                            scores@[p.1 as int].relevance,
                            scores@[p.1 as int].id,
                            cs,
                            query.boost_recent_memories,
                            now,
                        )
                    },
                forall|a: int, b: int|
                    0 <= a < b < pre_trunc.len() ==> pre_trunc[a].0 >= pre_trunc[b].0,
                forall|a: int, b: int|
                    0 <= a < b < pre_trunc.len() ==> pre_trunc[a].1 != pre_trunc[b].1,
                results@.len() == k,
                forall|kk: int|
                    0 <= kk < k ==> {
                        let res = #[trigger] results@[kk];
                        let sc = scores@[sorted@[kk].1 as int];
                        &&& has_concept_id(cs, res.concept.id)
                        &&& concept_eq(res.concept, concept_lookup(cs, res.concept.id))
                        &&& res.concept.id == sc.id
                        &&& res.concept.id != source
                        &&& res.relevance_score == sorted@[kk].0
                        &&& res.association_path@ == sc.path@
                        &&& res.connection_strength == sc.strength
                    },
            decreases sorted@.len() - k,
        {
            let si = sorted[k].1;
            let cid = scores[si].id;
            let ci = match find_concept(&self.concepts, cid) {
                Some(ci) => ci,
                None => {
                    proof {
                        assert(false);
                    }
                    0
                },
            };
            proof {
                lemma_concept_index(cs, cid, ci as int);
            }
            let concept = self.concepts[ci].duplicate();
            let path = clone_ids(&scores[si].path);
            let strength = scores[si].strength;
            results.push(
                RecallResult {
                    concept,
                    relevance_score: sorted[k].0,
                    association_path: path,
                    connection_strength: strength,
                },
            );
            k = k + 1;
        }
        proof {
            assert forall|a: int, b: int| 0 <= a < b < results@.len() implies
                results@[a].concept.id != results@[b].concept.id by {
                let sa = sorted@[a].1 as int;
                let sb = sorted@[b].1 as int;
                assert(results@[a].concept.id == scores@[sa].id);
                assert(results@[b].concept.id == scores@[sb].id);
                assert(sorted@[a] == pre_trunc[a] && sorted@[b] == pre_trunc[b]);
                if sa < sb {
                    assert(scores@[sa].id != scores@[sb].id);
                } else {
                    assert(sb < sa);
                    assert(scores@[sb].id != scores@[sa].id);
                }
            }
            // The per-result clauses against the final score table.
            assert forall|k2: int| 0 <= k2 < results@.len() implies {
                let res = #[trigger] results@[k2];
                let sc = score_lookup(fs, res.concept.id);
                &&& has_score(fs, res.concept.id)
                &&& sc.1 >= query.min_relevance
                &&& res.relevance_score == boosted_score(
                    sc.1,
                    res.concept.id,
                    cs,
                    query.boost_recent_memories,
                    now,
                )
                &&& res.association_path@ == sc.2
                &&& res.connection_strength == sc.3
                &&& res.association_path@.len() >= 2
                &&& res.association_path@.len() <= query.max_path_length + 1
                &&& res.association_path@[0] == source
                &&& res.association_path@.last() == res.concept.id
                &&& forall|i2: int|
                    1 <= i2 < res.association_path@.len() ==> res.association_path@[i2] != source
            } by {
                let si2 = sorted@[k2].1 as int;
                assert(fs[si2].0 == scores@[si2].id);
                assert forall|a: int, b: int| 0 <= a < b < fs.len() implies fs[a].0 != fs[b].0 by {
                    assert(fs[a].0 == scores@[a].id && fs[b].0 == scores@[b].id);
                }
                lemma_score_index(fs, scores@[si2].id, si2);
                assert(sorted@[k2] == pre_trunc[k2]);
                assert forall|i2: int|
                    1 <= i2 < results@[k2].association_path@.len() implies
                    results@[k2].association_path@[i2] != source by {
                    if i2 < results@[k2].association_path@.len() - 1 {
                        assert(scores@[si2].path@[i2] != source);
                    } else {
                        assert(results@[k2].association_path@[i2] == scores@[si2].id);
                    }
                }
            }
            // Count: the kept results are the qualifying scores, up to the cap.
            let qcount = fs.filter(
                |sc: (ConceptId, u64, Seq<ConceptId>, u64)|
                    sc.1 >= query.min_relevance && sc.0 != source,
            ).len() as int;
            assert(pre_pairs.len() == qcount);
            assert(pre_trunc.len() == qcount);
            // Completeness with cap dominance.
            assert forall|j2: int|
                0 <= j2 < fs.len() && (#[trigger] fs[j2]).1 >= query.min_relevance && fs[j2].0
                    != source implies (exists|k2: int|
                    0 <= k2 < results@.len() && (#[trigger] results@[k2]).concept.id
                        == fs[j2].0) || (query.max_results.is_some() && results@.len()
                == query.max_results.unwrap() && (results@.len() == 0 || boosted_score(
                fs[j2].1,
                fs[j2].0,
                cs,
                query.boost_recent_memories,
                now,
            ) <= results@[results@.len() - 1].relevance_score)) by {
                broadcast use vstd::seq_lib::group_to_multiset_ensures;
                broadcast use vstd::multiset::group_multiset_axioms;

                let kp = choose|kp: int|
                    0 <= kp < pre_pairs.len() && (#[trigger] pre_pairs[kp]).1 == j2;
                let pair = pre_pairs[kp];
                assert(pair.0 == boosted_score(
                    fs[j2].1,
                    fs[j2].0,
                    cs,
                    query.boost_recent_memories,
                    now,
                )) by {
                    assert(fs[j2] == (scores@[j2].id, scores@[j2].relevance, scores@[j2].path@,
                        scores@[j2].strength));
                }
                assert(pre_pairs.contains(pair));
                assert(pre_pairs.to_multiset().count(pair) > 0);
                assert(pre_trunc.to_multiset().count(pair) > 0);
                assert(pre_trunc.contains(pair));
                let p = choose|p: int| 0 <= p < pre_trunc.len() && pre_trunc[p] == pair;
                if p < results@.len() {
                    assert(sorted@[p] == pre_trunc[p]);
                    assert(results@[p].concept.id == scores@[sorted@[p].1 as int].id);
                    assert(results@[p].concept.id == fs[j2].0) by {
                        assert(sorted@[p].1 == j2);
                        assert(fs[j2].0 == scores@[j2].id);
                    }
                } else {
                    assert(results@.len() < pre_trunc.len());
                    assert(query.max_results.is_some() && results@.len()
                        == query.max_results.unwrap());
                    if results@.len() > 0 {
                        let last = results@.len() - 1;
                        assert(pre_trunc[p].0 <= pre_trunc[last].0);
                        assert(sorted@[last] == pre_trunc[last]);
                        assert(results@[last].relevance_score == sorted@[last].0);
                    }
                }
            }
        }
        results
    }
}

/// Whether the activation table holds an entry for `id`.
pub open spec fn lvl_has(levels: Seq<(ConceptId, u64)>, id: ConceptId) -> bool {
    exists|i: int| 0 <= i < levels.len() && levels[i].0 == id
}

/// The index of `id` in the activation table.
pub open spec fn lvl_index_of(levels: Seq<(ConceptId, u64)>, id: ConceptId) -> int {
    choose|i: int| 0 <= i < levels.len() && levels[i].0 == id
}

/// The activation of `id`; absent concepts carry zero.
pub open spec fn lvl_of(levels: Seq<(ConceptId, u64)>, id: ConceptId) -> u64 {
    if lvl_has(levels, id) {
        levels[lvl_index_of(levels, id)].1
    } else {
        0
    }
}

/// The table with `id` bound to `value`: updated in place when present,
/// appended otherwise.
pub open spec fn set_level_spec(
    levels: Seq<(ConceptId, u64)>,
    id: ConceptId,
    value: u64,
) -> Seq<(ConceptId, u64)> {
    if lvl_has(levels, id) {
        levels.update(lvl_index_of(levels, id), (id, value))
    } else {
        levels.push((id, value))
    }
}

/// With unique keys, a matching index is the index of the key.
pub proof fn lemma_lvl_index(levels: Seq<(ConceptId, u64)>, id: ConceptId, i: int)
    requires
        forall|a: int, b: int| 0 <= a < b < levels.len() ==> levels[a].0 != levels[b].0,
        0 <= i < levels.len(),
        levels[i].0 == id,
    ensures
        lvl_has(levels, id),
        lvl_index_of(levels, id) == i,
        lvl_of(levels, id) == levels[i].1,
{
    assert(lvl_has(levels, id));
    let j = lvl_index_of(levels, id);
    if j != i {
        if j < i {
            assert(levels[j].0 != levels[i].0);
        } else {
            assert(levels[i].0 != levels[j].0);
        }
    }
}

/// Set or insert an activation level, keeping keys unique.
fn set_level(levels: &mut Vec<(ConceptId, u64)>, id: ConceptId, value: u64)
    requires
        forall|a: int, b: int|
            0 <= a < b < old(levels)@.len() ==> old(levels)@[a].0 != old(levels)@[b].0,
    ensures
        final(levels)@ == set_level_spec(old(levels)@, id, value),
        forall|a: int, b: int|
            0 <= a < b < final(levels)@.len() ==> final(levels)@[a].0 != final(levels)@[b].0,
        forall|k: int|
            0 <= k < final(levels)@.len() ==> (#[trigger] final(levels)@[k]) == (id, value)
                || old(levels)@.contains(final(levels)@[k]),
{
    let ghost s0 = levels@;
    let mut i: usize = 0;
    while i < levels.len()
        invariant
            i <= s0.len(),
            levels@ == s0,
            s0 == old(levels)@,
            forall|a: int, b: int| 0 <= a < b < s0.len() ==> s0[a].0 != s0[b].0,
            forall|j: int| 0 <= j < i ==> s0[j].0 != id,
        decreases s0.len() - i,
    {
        if levels[i].0 == id {
            proof {
                lemma_lvl_index(s0, id, i as int);
            }
            levels[i] = (id, value);
            proof {
                assert forall|a: int, b: int| 0 <= a < b < levels@.len() implies levels@[a].0
                    != levels@[b].0 by {
                    assert(levels@[a].0 == s0[a].0);
                    assert(levels@[b].0 == s0[b].0);
                }
                assert forall|k: int| 0 <= k < levels@.len() implies (
                #[trigger] levels@[k]) == (id, value) || s0.contains(levels@[k]) by {
                    if k != i {
                        assert(s0[k] == levels@[k]);
                        assert(s0.contains(s0[k]));
                    }
                }
            }
            return ;
        }
        i = i + 1;
    }
    levels.push((id, value));
    proof {
        assert forall|k: int| 0 <= k < levels@.len() implies (#[trigger] levels@[k]) == (
            id,
            value,
        ) || s0.contains(levels@[k]) by {
            if k < s0.len() {
                assert(s0[k] == levels@[k]);
                assert(s0.contains(s0[k]));
            }
        }
        assert forall|a: int, b: int| 0 <= a < b < levels@.len() implies levels@[a].0
            != levels@[b].0 by {
            if b < s0.len() {
                assert(levels@[a] == s0[a] && levels@[b] == s0[b]);
            } else {
                assert(levels@[b] == (id, value));
                assert(levels@[a] == s0[a]);
            }
        }
    }
}

/// Look up an activation level; absent concepts carry level zero.
fn get_level(levels: &Vec<(ConceptId, u64)>, id: ConceptId) -> (r: u64)
    requires
        forall|a: int, b: int|
            0 <= a < b < levels@.len() ==> levels@[a].0 != levels@[b].0,
    ensures
        r == lvl_of(levels@, id),
{
    let mut i: usize = 0;
    while i < levels.len()
        invariant
            i <= levels@.len(),
            forall|a: int, b: int| 0 <= a < b < levels@.len() ==> levels@[a].0 != levels@[b].0,
            forall|j: int| 0 <= j < i ==> (#[trigger] levels@[j]).0 != id,
        decreases levels@.len() - i,
    {
        if levels[i].0 == id {
            proof {
                lemma_lvl_index(levels@, id, i as int);
            }
            return levels[i].1;
        }
        i = i + 1;
    }
    proof {
        if lvl_has(levels@, id) {
            let j = lvl_index_of(levels@, id);
        }
    }
    0
}

/// The seed table after the first `j` seeds, each at full activation.
pub open spec fn seed_init(seeds: Seq<ConceptId>, j: int) -> Seq<(ConceptId, u64)>
    decreases j,
{
    if j <= 0 {
        Seq::empty()
    } else {
        set_level_spec(seed_init(seeds, j - 1), seeds[j - 1], UNIT)
    }
}

/// The activation proposed across an edge of weight `w`:
/// `activation * w * 0.7` in fixed point.
pub open spec fn spread_value(act: u64, w: u64) -> u64 {
    ((((act * w) as int / (UNIT as int)) * 7) as int / 10) as u64
}

/// One edge of one spreading step: a concept at `act` pushes its proposal to
/// the other endpoint, which keeps the maximum it has seen.
pub open spec fn spread_edge(
    next: Seq<(ConceptId, u64)>,
    changed: bool,
    e: SynapticEdge,
    cur_id: ConceptId,
    act: u64,
) -> (Seq<(ConceptId, u64)>, bool) {
    if e.from == cur_id || e.to == cur_id {
        let target = if e.from == cur_id {
            e.to
        } else {
            e.from
        };
        let proposal = spread_value(act, e.weight.0);
        if proposal > lvl_of(next, target) {
            (set_level_spec(next, target, proposal), true)
        } else {
            (next, changed)
        }
    } else {
        (next, changed)
    }
}

/// The edges from index `j` on, applied in order.
pub open spec fn spread_edges(
    es: Seq<SynapticEdge>,
    j: int,
    next: Seq<(ConceptId, u64)>,
    changed: bool,
    cur_id: ConceptId,
    act: u64,
) -> (Seq<(ConceptId, u64)>, bool)
    decreases es.len() - j,
{
    if j < 0 || j >= es.len() {
        (next, changed)
    } else {
        let p = spread_edge(next, changed, es[j], cur_id, act);
        spread_edges(es, j + 1, p.0, p.1, cur_id, act)
    }
}

/// The table entries from index `i` on: each entry at or above the threshold
/// pushes across every edge.
pub open spec fn spread_entries(
    levels: Seq<(ConceptId, u64)>,
    i: int,
    next: Seq<(ConceptId, u64)>,
    changed: bool,
    es: Seq<SynapticEdge>,
    threshold: u64,
) -> (Seq<(ConceptId, u64)>, bool)
    decreases levels.len() - i,
{
    if i < 0 || i >= levels.len() {
        (next, changed)
    } else {
        let p = if levels[i].1 >= threshold {
            spread_edges(es, 0, next, changed, levels[i].0, levels[i].1)
        } else {
            (next, changed)
        };
        spread_entries(levels, i + 1, p.0, p.1, es, threshold)
    }
}

/// One full spreading iteration and whether it changed anything.
pub open spec fn spread_iteration(
    levels: Seq<(ConceptId, u64)>,
    es: Seq<SynapticEdge>,
    threshold: u64,
) -> (Seq<(ConceptId, u64)>, bool) {
    spread_entries(levels, 0, levels, false, es, threshold)
}

/// The activation table after at most `k` iterations, stopping early on a
/// quiet one.
pub open spec fn spread_run(
    levels: Seq<(ConceptId, u64)>,
    es: Seq<SynapticEdge>,
    threshold: u64,
    k: nat,
) -> Seq<(ConceptId, u64)>
    decreases k,
{
    if k == 0 {
        levels
    } else {
        let p = spread_iteration(levels, es, threshold);
        if !p.1 {
            p.0
        } else {
            spread_run(p.0, es, threshold, (k - 1) as nat)
        }
    }
}

/// The bound invariant of an activation table: unique keys, values at most
/// `UNIT`, every key a seed or an existing concept.
pub open spec fn levels_ok(
    levels: Seq<(ConceptId, u64)>,
    seeds: Seq<ConceptId>,
    cs: Seq<Concept>,
) -> bool {
    &&& forall|a: int, b: int| 0 <= a < b < levels.len() ==> levels[a].0 != levels[b].0
    &&& forall|k: int| 0 <= k < levels.len() ==> (#[trigger] levels[k]).1 <= UNIT
    &&& forall|k: int|
        0 <= k < levels.len() ==> seeds.contains((#[trigger] levels[k]).0) || has_concept_id(
            cs,
            levels[k].0,
        )
}

impl MemoryGraph {
    /// Spreading activation: seeds start at full activation; each iteration,
    /// every concept at or above the threshold pushes `activation * w * 0.7`
    /// to its neighbours in both zones, which keep the maximum they receive;
    /// the process stops on a quiet iteration or after `max_iterations`.
    /// The result holds exactly the non-seed concepts whose final activation
    /// in [`spread_run`] meets the threshold, scored by that activation and
    /// sorted descending.
    pub fn spreading_activation_recall(
        &self,
        seed_concepts: &Vec<ConceptId>,
        activation_threshold: u64,
        max_iterations: usize,
    ) -> (r: Vec<RecallResult>)
        requires
            self.wf(),
        ensures
            ({
                let final_levels = spread_run(
                    seed_init(seed_concepts@, seed_concepts@.len() as int),
                    self.short_term_edges@ + self.long_term_edges@,
                    activation_threshold,
                    max_iterations as nat,
                );
                &&& r@.len() == final_levels.filter(
                    |p: (ConceptId, u64)|
                        p.1 >= activation_threshold && !seed_concepts@.contains(p.0),
                ).len()
                &&& forall|k: int|
                    0 <= k < r@.len() ==> {
                        let res = #[trigger] r@[k];
                        &&& has_concept_id(self.concepts@, res.concept.id)
                        &&& concept_eq(
                            res.concept,
                            concept_lookup(self.concepts@, res.concept.id),
                        )
                        &&& !seed_concepts@.contains(res.concept.id)
                        &&& lvl_has(final_levels, res.concept.id)
                        &&& res.relevance_score == lvl_of(final_levels, res.concept.id)
                        &&& res.relevance_score == res.connection_strength
                        &&& activation_threshold <= res.relevance_score <= UNIT
                        &&& res.association_path@ == seq![res.concept.id]
                    }
            }),
            forall|i: int, j: int|
                0 <= i < j < r@.len() ==> r@[i].relevance_score >= r@[j].relevance_score,
            forall|i: int, j: int| 0 <= i < j < r@.len() ==> r@[i].concept.id != r@[j].concept.id,
            activation_threshold > UNIT ==> r@.len() == 0,
            seed_concepts@.len() == 0 ==> r@.len() == 0,
    {
        let ghost cs = self.concepts@;
        let ghost seeds = seed_concepts@;
        let mut all_edges: Vec<SynapticEdge> = Vec::new();
        let mut z: usize = 0;
        while z < self.short_term_edges.len()
            invariant
                z <= self.short_term_edges@.len(),
                all_edges@ =~= self.short_term_edges@.take(z as int),
            decreases self.short_term_edges@.len() - z,
        {
            all_edges.push(self.short_term_edges[z]);
            proof {
                assert(all_edges@ =~= self.short_term_edges@.take(z as int + 1));
            }
            z = z + 1;
        }
        let mut z2: usize = 0;
        while z2 < self.long_term_edges.len()
            invariant
                z2 <= self.long_term_edges@.len(),
                all_edges@ =~= self.short_term_edges@ + self.long_term_edges@.take(z2 as int),
            decreases self.long_term_edges@.len() - z2,
        {
            all_edges.push(self.long_term_edges[z2]);
            proof {
                assert(all_edges@ =~= self.short_term_edges@ + self.long_term_edges@.take(
                    z2 as int + 1,
                ));
            }
            z2 = z2 + 1;
        }
        proof {
            assert(all_edges@ =~= self.short_term_edges@ + self.long_term_edges@);
            assert forall|k: int| 0 <= k < all_edges@.len() implies (
            #[trigger] all_edges@[k]).wf() && has_concept_id(cs, all_edges@[k].from)
                && has_concept_id(cs, all_edges@[k].to) by {
                if k < self.short_term_edges@.len() {
                    assert(all_edges@[k] == self.short_term_edges@[k]);
                } else {
                    assert(all_edges@[k] == self.long_term_edges@[k
                        - self.short_term_edges@.len()]);
                }
            }
        }
        let ghost es = all_edges@;
        let mut levels: Vec<(ConceptId, u64)> = Vec::new();
        let mut s: usize = 0;
        while s < seed_concepts.len()
            invariant
                s <= seeds.len(),
                seeds == seed_concepts@,
                levels@ == seed_init(seeds, s as int),
                levels_ok(levels@, seeds, cs),
            decreases seeds.len() - s,
        {
            let ghost l0 = levels@;
            set_level(&mut levels, seed_concepts[s], UNIT);
            proof {
                assert(seeds.contains(seeds[s as int]));
                assert forall|k: int| 0 <= k < levels@.len() implies ((#[trigger] levels@[k]).1
                    <= UNIT && (seeds.contains(levels@[k].0) || has_concept_id(
                    cs,
                    levels@[k].0,
                ))) by {
                    if levels@[k] == (seeds[s as int], UNIT) {
                    } else {
                        assert(l0.contains(levels@[k]));
                        let m = choose|m: int| 0 <= m < l0.len() && l0[m] == levels@[k];
                    }
                }
            }
            s = s + 1;
        }
        let ghost init_levels = levels@;
        let ghost target = spread_run(init_levels, es, activation_threshold, max_iterations as nat);
        let mut stop = false;
        let mut iter: usize = 0;
        while iter < max_iterations && !stop
            invariant
                iter <= max_iterations,
                seeds == seed_concepts@,
                cs == self.concepts@,
                es == self.short_term_edges@ + self.long_term_edges@,
                es == all_edges@,
                forall|k: int|
                    0 <= k < es.len() ==> (#[trigger] es[k]).wf() && has_concept_id(
                        cs,
                        es[k].from,
                    ) && has_concept_id(cs, es[k].to),
                self.wf(),
                levels_ok(levels@, seeds, cs),
                target == spread_run(init_levels, es, activation_threshold, max_iterations as nat),
                !stop ==> spread_run(
                    levels@,
                    es,
                    activation_threshold,
                    (max_iterations - iter) as nat,
                ) == target,
                stop ==> levels@ == target,
                seeds.len() == 0 ==> levels@.len() == 0,
            decreases max_iterations - iter,
        {
            let ghost pre = levels@;
            let mut next: Vec<(ConceptId, u64)> = Vec::new();
            let mut c0: usize = 0;
            while c0 < levels.len()
                invariant
                    c0 <= levels@.len(),
                    levels@ == pre,
                    iter < max_iterations,
                    es == all_edges@,
                    forall|k: int|
                        0 <= k < es.len() ==> (#[trigger] es[k]).wf() && has_concept_id(
                            cs,
                            es[k].from,
                        ) && has_concept_id(cs, es[k].to),
                    spread_run(
                        pre,
                        es,
                        activation_threshold,
                        (max_iterations - iter) as nat,
                    ) == target,
                    next@ =~= levels@.take(c0 as int),
                decreases levels@.len() - c0,
            {
                next.push(levels[c0]);
                proof {
                    assert(next@ =~= levels@.take(c0 as int + 1));
                }
                c0 = c0 + 1;
            }
            proof {
                assert(levels@.take(levels@.len() as int) =~= levels@);
                assert(next@ =~= levels@);
            }
            let mut any_change = false;
            let mut i: usize = 0;
            while i < levels.len()
                invariant
                    i <= levels@.len(),
                    levels@ == pre,
                    iter < max_iterations,
                    spread_run(
                        pre,
                        es,
                        activation_threshold,
                        (max_iterations - iter) as nat,
                    ) == target,
                    seeds == seed_concepts@,
                    cs == self.concepts@,
                    es == all_edges@,
                    all_edges@.len() == es.len(),
                    self.wf(),
                    forall|k: int|
                        0 <= k < es.len() ==> (#[trigger] es[k]).wf() && has_concept_id(
                            cs,
                            es[k].from,
                        ) && has_concept_id(cs, es[k].to),
                    levels_ok(levels@, seeds, cs),
                    levels_ok(next@, seeds, cs),
                    seeds.len() == 0 ==> next@.len() == 0 && levels@.len() == 0,
                    spread_entries(
                        pre,
                        i as int,
                        next@,
                        any_change,
                        es,
                        activation_threshold,
                    ) == spread_iteration(pre, es, activation_threshold),
                decreases levels@.len() - i,
            {
                let act = levels[i].1;
                let cur_id = levels[i].0;
                if act >= activation_threshold {
                    let ghost zstart_next = next@;
                    let ghost zstart_flag = any_change;
                    let mut j: usize = 0;
                    while j < all_edges.len()
                        invariant
                            j <= es.len(),
                            i < levels@.len(),
                            levels@ == pre,
                            act == pre[i as int].1,
                            cur_id == pre[i as int].0,
                            seeds == seed_concepts@,
                            cs == self.concepts@,
                            es == all_edges@,
                            self.wf(),
                            forall|k: int|
                                0 <= k < es.len() ==> (#[trigger] es[k]).wf() && has_concept_id(
                                    cs,
                                    es[k].from,
                                ) && has_concept_id(cs, es[k].to),
                            act <= UNIT,
                            levels_ok(next@, seeds, cs),
                            seeds.len() == 0 ==> next@.len() == 0 && pre.len() == 0,
                            iter < max_iterations,
                            spread_run(
                                pre,
                                es,
                                activation_threshold,
                                (max_iterations - iter) as nat,
                            ) == target,
                            spread_edges(es, j as int, next@, any_change, cur_id, act)
                                == spread_edges(es, 0, zstart_next, zstart_flag, cur_id, act),
                        decreases es.len() - j,
                    {
                        let e = all_edges[j];
                        proof {
                            assert(e == es[j as int]);
                            assert(e.wf());
                        }
                        if e.from == cur_id || e.to == cur_id {
                            let target_id = if e.from == cur_id {
                                e.to
                            } else {
                                e.from
                            };
                            let w = e.weight.value();
                            assert(act * w <= 1_000_000 * 1_000_000 && act * w / 1_000_000
                                <= 1_000_000) by (nonlinear_arith)
                                requires
                                    act <= 1_000_000,
                                    w <= 1_000_000,
                            ;
                            let sp1 = act * w / UNIT;
                            let proposal = sp1 * 7 / 10;
                            proof {
                                assert(proposal <= UNIT) by (nonlinear_arith)
                                    requires
                                        proposal == sp1 * 7 / 10,
                                        sp1 <= 1_000_000,
                                ;
                            }
                            let current = get_level(&next, target_id);
                            if proposal > current {
                                let ghost n0 = next@;
                                set_level(&mut next, target_id, proposal);
                                any_change = true;
                                proof {
                                    assert forall|k: int| 0 <= k < next@.len() implies ((
                                    #[trigger] next@[k]).1 <= UNIT && (seeds.contains(
                                        next@[k].0,
                                    ) || has_concept_id(cs, next@[k].0))) by {
                                        if next@[k] == (target_id, proposal) {
                                        } else {
                                            assert(n0.contains(next@[k]));
                                            let m = choose|m: int|
                                                0 <= m < n0.len() && n0[m] == next@[k];
                                        }
                                    }
                                    if seeds.len() == 0 {
                                        assert(pre.len() == 0);
                                        assert(false);
                                    }
                                }
                            }
                        }
                        j = j + 1;
                    }
                }
                i = i + 1;
            }
            proof {
                assert(spread_entries(pre, pre.len() as int, next@, any_change, es,
                    activation_threshold) == (next@, any_change));
                assert(spread_iteration(pre, es, activation_threshold) == (next@, any_change));
            }
            levels = next;
            iter = iter + 1;
            if !any_change {
                stop = true;
                proof {
                    assert(spread_run(pre, es, activation_threshold, (max_iterations - (iter - 1))
                        as nat) == levels@);
                }
            }
        }
        proof {
            if !stop {
                assert(iter == max_iterations);
                assert(spread_run(levels@, es, activation_threshold, 0nat) == target);
            }
            assert(levels@ == target);
        }
        // Harvest non-seed concepts at or above the threshold.
        let mut pairs: Vec<(u64, usize)> = Vec::new();
        let mut m: usize = 0;
        while m < levels.len()
            invariant
                m <= levels@.len(),
                seeds == seed_concepts@,
                cs == self.concepts@,
                self.wf(),
                levels_ok(levels@, seeds, cs),
                levels@ == target,
                pairs@.len() == levels@.take(m as int).filter(
                    |p: (ConceptId, u64)|
                        p.1 >= activation_threshold && !seeds.contains(p.0),
                ).len(),
                forall|k: int|
                    0 <= k < pairs@.len() ==> {
                        let p = #[trigger] pairs@[k];
                        &&& p.1 < levels@.len()
                        &&& !seeds.contains(levels@[p.1 as int].0)
                        &&& has_concept_id(cs, levels@[p.1 as int].0)
                        &&& p.0 == levels@[p.1 as int].1
                        &&& activation_threshold <= p.0 <= UNIT
                    },
                forall|a: int, b: int| 0 <= a < b < pairs@.len() ==> pairs@[a].1 < pairs@[b].1,
                forall|k: int| 0 <= k < pairs@.len() ==> (#[trigger] pairs@[k]).1 < m,
                forall|j2: int|
                    0 <= j2 < m && (#[trigger] levels@[j2]).1 >= activation_threshold
                        && !seeds.contains(levels@[j2].0) ==> exists|k: int|
                        0 <= k < pairs@.len() && (#[trigger] pairs@[k]).1 == j2,
                activation_threshold > UNIT ==> pairs@.len() == 0,
            decreases levels@.len() - m,
        {
            proof {
                lemma_take_filter_step(
                    levels@,
                    |p: (ConceptId, u64)|
                        p.1 >= activation_threshold && !seeds.contains(p.0),
                    m as int,
                );
            }
            let act = levels[m].1;
            if act >= activation_threshold && !crate::forgetting::id_in_list(
                seed_concepts,
                levels[m].0,
            ) {
                let ghost pairs0 = pairs@;
                pairs.push((act, m));
                proof {
                    assert forall|j2: int|
                        0 <= j2 < m + 1 && (#[trigger] levels@[j2]).1 >= activation_threshold
                            && !seeds.contains(levels@[j2].0) implies exists|k: int|
                            0 <= k < pairs@.len() && (#[trigger] pairs@[k]).1 == j2 by {
                        if j2 < m {
                            let k = choose|k: int|
                                0 <= k < pairs0.len() && (#[trigger] pairs0[k]).1 == j2;
                            assert(pairs@[k].1 == j2);
                        } else {
                            assert(pairs@[pairs@.len() - 1].1 == j2);
                        }
                    }
                }
            }
            m = m + 1;
        }
        proof {
            assert(levels@.take(levels@.len() as int) =~= levels@);
        }
        let ghost pre_pairs = pairs@;
        let mut sorted = sort_scores_desc(pairs);
        proof {
            broadcast use vstd::seq_lib::group_to_multiset_ensures;
            broadcast use vstd::multiset::group_multiset_axioms;

            assert forall|k: int| 0 <= k < sorted@.len() implies {
                let p = #[trigger] sorted@[k];
                &&& p.1 < levels@.len()
                &&& !seeds.contains(levels@[p.1 as int].0)
                &&& has_concept_id(cs, levels@[p.1 as int].0)
                &&& p.0 == levels@[p.1 as int].1
                &&& activation_threshold <= p.0 <= UNIT
            } by {
                assert(sorted@.contains(sorted@[k]));
                assert(sorted@.to_multiset().count(sorted@[k]) > 0);
                assert(pre_pairs.to_multiset().count(sorted@[k]) > 0);
                assert(pre_pairs.contains(sorted@[k]));
                let k2 = choose|k2: int|
                    0 <= k2 < pre_pairs.len() && pre_pairs[k2] == sorted@[k];
            }
            assert forall|a: int, b: int| 0 <= a < b < sorted@.len() implies sorted@[a].1
                != sorted@[b].1 by {
                if sorted@[a] == sorted@[b] {
                    pre_pairs.lemma_multiset_has_no_duplicates();
                    sorted@.lemma_multiset_has_no_duplicates_conv();
                } else if sorted@[a].1 == sorted@[b].1 {
                    assert(sorted@[a].0 == levels@[sorted@[a].1 as int].1);
                    assert(sorted@[b].0 == levels@[sorted@[b].1 as int].1);
                }
            }
        }
        let mut results: Vec<RecallResult> = Vec::new();
        let mut k: usize = 0;
        while k < sorted.len()
            invariant
                k <= sorted@.len(),
                seeds == seed_concepts@,
                cs == self.concepts@,
                self.wf(),
                levels_ok(levels@, seeds, cs),
                levels@ == target,
                sorted@.len() == pre_pairs.len(),
                forall|kk: int|
                    0 <= kk < sorted@.len() ==> {
                        let p = #[trigger] sorted@[kk];
                        &&& p.1 < levels@.len()
                        &&& !seeds.contains(levels@[p.1 as int].0)
                        &&& has_concept_id(cs, levels@[p.1 as int].0)
                        &&& p.0 == levels@[p.1 as int].1
                        &&& activation_threshold <= p.0 <= UNIT
                    },
                forall|a: int, b: int|
                    0 <= a < b < sorted@.len() ==> sorted@[a].0 >= sorted@[b].0,
                forall|a: int, b: int|
                    0 <= a < b < sorted@.len() ==> sorted@[a].1 != sorted@[b].1,
                results@.len() == k,
                forall|kk: int|
                    0 <= kk < k ==> {
                        let res = #[trigger] results@[kk];
                        &&& has_concept_id(cs, res.concept.id)
                        &&& concept_eq(res.concept, concept_lookup(cs, res.concept.id))
                        &&& res.concept.id == levels@[sorted@[kk].1 as int].0
                        &&& !seeds.contains(res.concept.id)
                        &&& lvl_has(levels@, res.concept.id)
                        &&& res.relevance_score == lvl_of(levels@, res.concept.id)
                        &&& res.relevance_score == sorted@[kk].0
                        &&& res.connection_strength == sorted@[kk].0
                        &&& res.association_path@ == seq![res.concept.id]
                    },
            decreases sorted@.len() - k,
        {
            let li = sorted[k].1;
            let cid = levels[li].0;
            proof {
                lemma_lvl_index(levels@, cid, li as int);
            }
            let ci = match find_concept(&self.concepts, cid) {
                Some(ci) => ci,
                None => {
                    proof {
                        assert(false);
                    }
                    0
                },
            };
            proof {
                lemma_concept_index(cs, cid, ci as int);
            }
            let concept = self.concepts[ci].duplicate();
            let mut path: Vec<ConceptId> = Vec::new();
            path.push(concept.id);
            proof {
                assert(path@ =~= seq![levels@[li as int].0]);
            }
            results.push(
                RecallResult {
                    concept,
                    relevance_score: sorted[k].0,
                    association_path: path,
                    connection_strength: sorted[k].0,
                },
            );
            k = k + 1;
        }
        proof {
            assert forall|a: int, b: int| 0 <= a < b < results@.len() implies
                results@[a].concept.id != results@[b].concept.id by {
                let sa = sorted@[a].1 as int;
                let sb = sorted@[b].1 as int;
                assert(results@[a].concept.id == levels@[sa].0);
                assert(results@[b].concept.id == levels@[sb].0);
                if sa < sb {
                    assert(levels@[sa].0 != levels@[sb].0);
                } else {
                    assert(sb < sa);
                    assert(levels@[sb].0 != levels@[sa].0);
                }
            }
            if activation_threshold > UNIT {
                assert(sorted@.len() == pre_pairs.len());
            }
            assert(results@.len() == levels@.filter(
                |p: (ConceptId, u64)|
                    p.1 >= activation_threshold && !seeds.contains(p.0),
            ).len());
        }
        results
    }
}

} // verus!
