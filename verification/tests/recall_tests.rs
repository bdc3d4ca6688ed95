use leafmind::graph::MemoryGraph;
use leafmind::recall::RecallQuery;
use leafmind::types::UNIT;

const NOW: i64 = 1_700_000_000;

#[test]
fn content_recall_scores_by_token_overlap() {
    let mut memory = MemoryGraph::new_with_defaults(NOW);
    let _cat = memory.learn("the cat sat down".to_string(), NOW);
    let _dog = memory.learn("entirely unrelated words here".to_string(), NOW);

    let query = RecallQuery {
        max_results: None,
        min_relevance: 100_000,
        max_path_length: 3,
        include_semantic_similarity: true,
        boost_recent_memories: false,
    };
    let results = memory.recall_by_content("the cat ran away", query, NOW);
    // Tokens longer than two bytes: {the, cat, sat, down} against
    // {the, cat, ran, away}: intersection 2, union 6, similarity 1/3.
    assert_eq!(results.len(), 1);
    assert_eq!(results[0].relevance_score, 333_333);
    assert_eq!(results[0].connection_strength, 333_333);
    assert_eq!(results[0].association_path.len(), 1);
}

#[test]
fn content_recall_sorts_and_truncates() {
    let mut memory = MemoryGraph::new_with_defaults(NOW);
    let _a = memory.learn("alpha beta gamma".to_string(), NOW);
    let _b = memory.learn("alpha beta delta".to_string(), NOW);
    let _c = memory.learn("alpha epsilon zeta".to_string(), NOW);

    let query = RecallQuery {
        max_results: Some(2),
        min_relevance: 1,
        max_path_length: 3,
        include_semantic_similarity: true,
        boost_recent_memories: false,
    };
    let results = memory.recall_by_content("alpha beta gamma", query, NOW);
    assert_eq!(results.len(), 2);
    assert!(results[0].relevance_score >= results[1].relevance_score);
    assert_eq!(results[0].relevance_score, UNIT);
}

#[test]
fn bfs_recall_respects_path_length_and_excludes_source() {
    let mut memory = MemoryGraph::new_with_defaults(NOW);
    let a = memory.learn("node a".to_string(), NOW);
    let b = memory.learn("node b".to_string(), NOW);
    let c = memory.learn("node c".to_string(), NOW);
    let d = memory.learn("node d".to_string(), NOW);
    memory.associate(a, b, NOW).unwrap();
    memory.associate(b, c, NOW).unwrap();
    memory.associate(c, d, NOW).unwrap();

    let query = RecallQuery {
        max_results: None,
        min_relevance: 0,
        max_path_length: 2,
        include_semantic_similarity: false,
        boost_recent_memories: false,
    };
    let results = memory.recall(a, query, NOW);
    for r in &results {
        assert!(r.concept.id != a);
        assert!(r.association_path.len() <= 3);
        assert_eq!(r.association_path[0], a);
        assert_eq!(*r.association_path.last().unwrap(), r.concept.id);
    }
    // Depth two reaches b and c but not d.
    assert_eq!(results.len(), 2);
}

#[test]
fn spreading_activation_empty_when_threshold_unreachable() {
    let mut memory = MemoryGraph::new_with_defaults(NOW);
    let a = memory.learn("seed".to_string(), NOW);
    let b = memory.learn("neighbour".to_string(), NOW);
    memory.associate(a, b, NOW).unwrap();

    let seeds = vec![a];
    let results = memory.spreading_activation_recall(&seeds, UNIT + 1, 10);
    assert!(results.is_empty());
}

#[test]
fn spreading_activation_reaches_neighbours() {
    let mut memory = MemoryGraph::new_with_defaults(NOW);
    let a = memory.learn("seed".to_string(), NOW);
    let b = memory.learn("neighbour".to_string(), NOW);
    memory.associate(a, b, NOW).unwrap();
    memory.access_concept(a, NOW).unwrap();

    let seeds = vec![a];
    let results = memory.spreading_activation_recall(&seeds, 50_000, 10);
    assert_eq!(results.len(), 1);
    assert_eq!(results[0].concept.id, b);
    // 1.0 * 0.19 * 0.7 = 0.133
    assert_eq!(results[0].relevance_score, 133_000);
}

#[test]
fn interference_weakens_similar_concepts() {
    let mut memory = MemoryGraph::new_with_defaults(NOW);
    let fresh = memory.learn("the red fox jumps".to_string(), NOW);
    let similar = memory.learn("the red fox sleeps".to_string(), NOW);
    let unrelated = memory.learn("completely different text".to_string(), NOW);
    memory.associate(similar, unrelated, NOW).unwrap();
    let before = memory.short_term_edges[0].weight.value();
    let sim_access_before = memory.get_concept(similar).unwrap().access_count;

    // Jaccard of {the, red, fox, jumps} and {the, red, fox, sleeps} is 3/5.
    let affected = memory.interference_forgetting(fresh, 500_000);
    assert_eq!(affected, 1);
    let after = memory.short_term_edges[0].weight.value();
    assert_eq!(after, before * 8 / 10);
    let sim_access_after = memory.get_concept(similar).unwrap().access_count;
    assert_eq!(sim_access_after, sim_access_before - 1);
}

#[test]
fn concept_similarity_is_jaccard_on_tokens() {
    let mut memory = MemoryGraph::new_with_defaults(NOW);
    let a = memory.learn("The Cat SAT".to_string(), NOW);
    let b = memory.learn("the cat ran".to_string(), NOW);
    let ca = memory.get_concept(a).unwrap();
    let cb = memory.get_concept(b).unwrap();
    // Lower-cased tokens {the, cat, sat} vs {the, cat, ran}: 2/4.
    assert_eq!(memory.calculate_concept_similarity(&ca, &cb), 500_000);
}

#[test]
fn bfs_recall_keeps_top_scores_under_cap() {
    let mut memory = MemoryGraph::new_with_defaults(NOW);
    let hub = memory.learn("hub".to_string(), NOW);
    let strong = memory.learn("strong neighbour".to_string(), NOW);
    let medium = memory.learn("medium neighbour".to_string(), NOW);
    let weak = memory.learn("weak neighbour".to_string(), NOW);
    memory.associate(hub, strong, NOW).unwrap();
    memory.associate(hub, medium, NOW).unwrap();
    memory.associate(hub, weak, NOW).unwrap();
    // Distinct weights (test hook): 0.9, 0.5, 0.2 before the access bump.
    for e in memory.short_term_edges.iter_mut() {
        if e.to == strong {
            e.weight = leafmind::types::SynapticWeight(900_000);
        } else if e.to == medium {
            e.weight = leafmind::types::SynapticWeight(500_000);
        } else {
            e.weight = leafmind::types::SynapticWeight(200_000);
        }
    }

    let query = RecallQuery {
        max_results: Some(2),
        min_relevance: 0,
        max_path_length: 1,
        include_semantic_similarity: false,
        boost_recent_memories: false,
    };
    let results = memory.recall(hub, query, NOW);
    assert_eq!(results.len(), 2);
    // The two strongest neighbours survive the cap; the weak one is cut.
    assert_eq!(results[0].concept.id, strong);
    assert_eq!(results[1].concept.id, medium);
    for r in &results {
        assert!(r.concept.id != weak);
    }
}
