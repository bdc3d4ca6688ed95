use leafmind::forgetting::ForgettingConfig;
use leafmind::graph::MemoryGraph;
use leafmind::recall::RecallQuery;
use leafmind::types::{MemoryConfig, MemoryError, UNIT};

const NOW: i64 = 1_700_000_000;

#[test]
fn test_basic_memory_operations() {
    let mut memory = MemoryGraph::new_with_defaults(NOW);

    let concept1 = memory.learn("Hello world".to_string(), NOW);
    let concept2 = memory.learn("Goodbye world".to_string(), NOW);

    assert!(memory.associate(concept1, concept2, NOW).is_ok());

    let results = memory.recall(concept1, RecallQuery::default(), NOW);
    assert!(!results.is_empty());
}

#[test]
fn test_consolidation() {
    let mut memory = MemoryGraph::new_with_defaults(NOW);

    let concept1 = memory.learn("Important memory".to_string(), NOW);
    let concept2 = memory.learn("Related memory".to_string(), NOW);

    memory.associate(concept1, concept2, NOW).unwrap();
    memory.access_concept(concept1, NOW).unwrap();
    memory.access_concept(concept2, NOW).unwrap();

    let stats = memory.force_consolidation(NOW);
    assert!(stats.promoted_to_long_term < usize::MAX);
}

#[test]
fn test_forgetting() {
    let mut memory = MemoryGraph::new_with_defaults(NOW);
    let config = ForgettingConfig::default();

    let _concept = memory.learn("Forgettable memory".to_string(), NOW);
    let initial_count = memory.get_all_concept_ids().len();
    assert_eq!(initial_count, 1);

    let stats = memory.forget(config, NOW);
    assert!(stats.concepts_forgotten < usize::MAX);
}

#[test]
fn learn_and_associate_scenario() {
    let mut memory = MemoryGraph::new_with_defaults(NOW);
    let cat = memory.learn("A small furry animal that meows".to_string(), NOW);
    let dog = memory.learn("A loyal furry animal that barks".to_string(), NOW);
    let pet = memory.learn("A domesticated animal companion".to_string(), NOW);

    memory.associate(cat, pet, NOW).unwrap();
    memory.associate(dog, pet, NOW).unwrap();

    let stats = memory.get_stats();
    assert_eq!(stats.total_concepts, 3);
    assert_eq!(stats.short_term_connections, 2);
    assert_eq!(stats.long_term_connections, 0);
}

#[test]
fn recall_ordering_scenario() {
    let mut memory = MemoryGraph::new_with_defaults(NOW);
    let cat = memory.learn("A small furry animal that meows".to_string(), NOW);
    let dog = memory.learn("A loyal furry animal that barks".to_string(), NOW);
    let pet = memory.learn("A domesticated animal companion".to_string(), NOW);

    memory.associate(cat, pet, NOW).unwrap();
    memory.associate(dog, pet, NOW).unwrap();

    let query = RecallQuery {
        max_results: None,
        min_relevance: 0,
        max_path_length: 2,
        include_semantic_similarity: false,
        boost_recent_memories: false,
    };
    let results = memory.recall(pet, query, NOW);
    assert_eq!(results.len(), 2);
    for r in &results {
        assert!(r.concept.id == cat || r.concept.id == dog);
        // Recall first marks the source as accessed, which strengthens its
        // incident edges to 0.19; then 1.0 * 0.19 * 0.8^0 = 0.19.
        assert_eq!(r.relevance_score, UNIT * 19 / 100);
        assert_eq!(r.association_path.len(), 2);
        assert_eq!(r.association_path[0], pet);
    }
    assert!(results[0].concept.id != results[1].concept.id);
}

#[test]
fn promotion_scenario() {
    let mut memory = MemoryGraph::new_with_defaults(NOW);
    let a = memory.learn("first anchor".to_string(), NOW);
    let b = memory.learn("second anchor".to_string(), NOW);

    for _ in 0..3 {
        memory.associate(a, b, NOW).unwrap();
    }
    for _ in 0..5 {
        memory.access_concept(a, NOW).unwrap();
        memory.access_concept(b, NOW).unwrap();
    }
    // Age the edge by two hours so that the maturity criterion holds.
    for edge in memory.short_term_edges.iter_mut() {
        edge.created_at = NOW - 7200;
    }

    let stats = memory.consolidate_memory(NOW);
    assert_eq!(stats.promoted_to_long_term, 1);
    let after = memory.get_stats();
    assert_eq!(after.short_term_connections, 0);
    assert_eq!(after.long_term_connections, 1);
}

#[test]
fn decay_and_prune_scenario() {
    let config = MemoryConfig {
        learning_rate: 100_000,
        decay_rate: 500_000,
        consolidation_threshold: 500_000,
        max_short_term_connections: 10_000,
        consolidation_interval_hours: 24,
        max_recall_results: 20,
    };
    let mut memory = MemoryGraph::new(config, NOW);
    let a = memory.learn("left".to_string(), NOW);
    let b = memory.learn("right".to_string(), NOW);
    memory.associate(a, b, NOW).unwrap();
    assert_eq!(memory.get_stats().short_term_connections, 1);

    // 0.1 -> 0.05 -> 0.025 -> 0.0125 -> 0.00625 (snaps to zero, pruned)
    for _ in 0..4 {
        memory.apply_ltd_decay();
    }
    assert_eq!(memory.get_stats().short_term_connections, 0);
}

#[test]
fn disuse_forgetting_scenario() {
    let mut memory = MemoryGraph::new_with_defaults(NOW);
    let x = memory.learn("stale entry".to_string(), NOW);
    let y = memory.learn("fresh entry".to_string(), NOW);
    memory.associate(x, y, NOW).unwrap();
    memory.associate(y, x, NOW).unwrap();

    // Backdate x by sixty days and strike its accesses (a test hook).
    for c in memory.concepts.iter_mut() {
        if c.id == x {
            c.access_count = 0;
            c.last_accessed = NOW - 60 * 86400;
        }
    }

    let config = ForgettingConfig {
        concept_isolation_threshold: 0,
        unused_concept_days: 30,
        weak_connection_threshold: 0,
        aggressive_forgetting: false,
    };
    let stats = memory.forget(config, NOW);
    assert_eq!(stats.concepts_forgotten, 1);
    assert!(memory.get_concept(x).is_none());
    assert!(memory.get_concept(y).is_some());
    for e in memory.short_term_edges.iter().chain(memory.long_term_edges.iter()) {
        assert!(e.from != x && e.to != x);
    }
}

#[test]
fn associate_unknown_concept_fails() {
    let mut memory = MemoryGraph::new_with_defaults(NOW);
    let known = memory.learn("known".to_string(), NOW);
    let ghost = leafmind::types::ConceptId(42);

    assert_eq!(memory.associate(known, ghost, NOW), Err(MemoryError::UnknownConcept));
    assert_eq!(memory.associate(ghost, known, NOW), Err(MemoryError::UnknownConcept));
    assert_eq!(memory.get_stats().short_term_connections, 0);
}

#[test]
fn learn_checked_rejects_empty_content() {
    let mut memory = MemoryGraph::new_with_defaults(NOW);
    assert_eq!(memory.learn_checked(String::new(), NOW), Err(MemoryError::InvalidInput));
    assert_eq!(memory.get_stats().total_concepts, 0);
    assert!(memory.learn_checked("substance".to_string(), NOW).is_ok());
    assert_eq!(memory.get_stats().total_concepts, 1);
}

#[test]
fn remove_concept_cascades() {
    let mut memory = MemoryGraph::new_with_defaults(NOW);
    let a = memory.learn("one".to_string(), NOW);
    let b = memory.learn("two".to_string(), NOW);
    let c = memory.learn("three".to_string(), NOW);
    memory.associate(a, b, NOW).unwrap();
    memory.associate(b, c, NOW).unwrap();
    memory.associate(c, a, NOW).unwrap();

    assert!(memory.remove_concept(b));
    assert!(memory.get_concept(b).is_none());
    assert_eq!(memory.get_stats().short_term_connections, 1);
    for e in memory.short_term_edges.iter() {
        assert!(e.from != b && e.to != b);
    }
    assert!(!memory.remove_concept(b));
}

#[test]
fn access_strengthens_incident_edges() {
    let mut memory = MemoryGraph::new_with_defaults(NOW);
    let a = memory.learn("hub".to_string(), NOW);
    let b = memory.learn("spoke".to_string(), NOW);
    memory.associate(a, b, NOW).unwrap();
    let before = memory.short_term_edges[0].weight.value();
    memory.access_concept(a, NOW).unwrap();
    let after = memory.short_term_edges[0].weight.value();
    // 0.1 + 0.1 * (1 - 0.1) = 0.19
    assert_eq!(before, 100_000);
    assert_eq!(after, 190_000);
}
