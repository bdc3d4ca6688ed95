use leafmind::graph::MemoryGraph;
use leafmind::persistence::{
    decode_concept, decode_config, decode_edge, decode_working, encode_concept, encode_config,
    encode_edge, encode_working, hit_rate_exec, rebuild_graph, should_immediate_persist,
    snapshot_entries,
};
use leafmind::types::{Concept, ConceptId, MemoryConfig, SynapticEdge, SynapticWeight};

const NOW: i64 = 1_700_000_000;

#[test]
fn concept_round_trip() {
    let concept = Concept {
        id: ConceptId(0x0123_4567_89ab_cdef_0011_2233_4455_6677),
        content: "a concept with some text".to_string(),
        metadata: vec![
            ("origin".to_string(), "manual".to_string()),
            ("note".to_string(), "with unicode \u{e9}\u{4e16}".to_string()),
        ],
        created_at: NOW - 100,
        last_accessed: NOW,
        access_count: 7,
    };
    let bytes = encode_concept(&concept);
    let back = decode_concept(&bytes).unwrap();
    assert_eq!(back.id, concept.id);
    assert_eq!(back.content, concept.content);
    assert_eq!(back.metadata, concept.metadata);
    assert_eq!(back.created_at, concept.created_at);
    assert_eq!(back.last_accessed, concept.last_accessed);
    assert_eq!(back.access_count, concept.access_count);
}

#[test]
fn edge_round_trip() {
    let edge = SynapticEdge {
        from: ConceptId(1),
        to: ConceptId(2),
        weight: SynapticWeight(123_456),
        created_at: -5,
        last_accessed: NOW,
        activation_count: 42,
    };
    let bytes = encode_edge(&edge);
    assert_eq!(decode_edge(&bytes), Some(edge));
}

#[test]
fn working_and_config_round_trip() {
    let bytes = encode_working(ConceptId(99), NOW);
    assert_eq!(decode_working(&bytes), Some((ConceptId(99), NOW)));

    let config = MemoryConfig {
        learning_rate: 50_000,
        decay_rate: 1_000,
        consolidation_threshold: 700_000,
        max_short_term_connections: 100_000,
        consolidation_interval_hours: 12,
        max_recall_results: 100,
    };
    let back = decode_config(&encode_config(&config)).unwrap();
    assert_eq!(back.learning_rate, config.learning_rate);
    assert_eq!(back.decay_rate, config.decay_rate);
    assert_eq!(back.consolidation_threshold, config.consolidation_threshold);
    assert_eq!(back.max_short_term_connections, config.max_short_term_connections);
    assert_eq!(back.consolidation_interval_hours, config.consolidation_interval_hours);
    assert_eq!(back.max_recall_results, config.max_recall_results);
}

#[test]
fn decode_rejects_malformed_bytes() {
    assert!(decode_edge(&vec![0u8; 10]).is_none());
    assert!(decode_working(&vec![0u8; 3]).is_none());
    assert!(decode_config(&vec![1u8; 47]).is_none());
    assert!(decode_concept(&vec![2u8; 12]).is_none());
}

#[test]
fn snapshot_rebuild_round_trip() {
    let mut memory = MemoryGraph::new_with_defaults(NOW);
    let a = memory.learn("first persistent concept".to_string(), NOW);
    let b = memory.learn("second persistent concept".to_string(), NOW);
    memory.associate(a, b, NOW).unwrap();
    memory.access_concept(a, NOW).unwrap();

    let entries = snapshot_entries(&memory);
    let rebuilt = rebuild_graph(MemoryConfig::default(), NOW, &entries).unwrap();

    let before = memory.get_stats();
    let after = rebuilt.get_stats();
    assert_eq!(after.total_concepts, before.total_concepts);
    assert_eq!(after.short_term_connections, before.short_term_connections);
    assert_eq!(after.long_term_connections, before.long_term_connections);
    assert_eq!(after.working_memory_size, before.working_memory_size);

    let ca = rebuilt.get_concept(a).unwrap();
    let oa = memory.get_concept(a).unwrap();
    assert_eq!(ca.content, oa.content);
    assert_eq!(ca.access_count, oa.access_count);
    assert_eq!(ca.last_accessed, oa.last_accessed);
    assert_eq!(rebuilt.short_term_edges[0].weight, memory.short_term_edges[0].weight);
    assert_eq!(rebuilt.short_term_edges[0].activation_count,
        memory.short_term_edges[0].activation_count);
    assert_eq!(rebuilt.config.learning_rate, memory.config.learning_rate);
}

#[test]
fn save_and_reload_preserves_edge_zone_and_counts() {
    // A fresh engine, some learning, one consolidation into long-term, a
    // snapshot, and a rebuild from it: the reopened graph matches.
    let mut memory = MemoryGraph::new_with_defaults(NOW);
    let a = memory.learn("anchor one".to_string(), NOW);
    let b = memory.learn("anchor two".to_string(), NOW);
    for _ in 0..3 {
        memory.associate(a, b, NOW).unwrap();
    }
    for _ in 0..5 {
        memory.access_concept(a, NOW).unwrap();
        memory.access_concept(b, NOW).unwrap();
    }
    for edge in memory.short_term_edges.iter_mut() {
        edge.created_at = NOW - 7200;
    }
    memory.consolidate_memory(NOW);
    assert_eq!(memory.get_stats().long_term_connections, 1);

    let entries = snapshot_entries(&memory);
    let rebuilt = rebuild_graph(MemoryConfig::default(), NOW, &entries).unwrap();
    assert_eq!(rebuilt.get_stats().total_concepts, 2);
    assert_eq!(rebuilt.get_stats().short_term_connections, 0);
    assert_eq!(rebuilt.get_stats().long_term_connections, 1);
    assert_eq!(rebuilt.long_term_edges[0].weight, memory.long_term_edges[0].weight);
    assert_eq!(rebuilt.long_term_edges[0].activation_count,
        memory.long_term_edges[0].activation_count);
}

#[test]
fn rebuild_rejects_corruption() {
    let memory = MemoryGraph::new_with_defaults(NOW);
    let mut entries = snapshot_entries(&memory);
    entries.push((b"concept:0123456789abcdef".to_vec(), vec![1, 2, 3]));
    assert!(rebuild_graph(MemoryConfig::default(), NOW, &entries).is_err());
}

#[test]
fn cache_hit_rate_and_write_through_policy() {
    assert_eq!(hit_rate_exec(0, 0), 0);
    assert_eq!(hit_rate_exec(1, 1), 500_000);
    assert_eq!(hit_rate_exec(3, 1), 750_000);

    let memory = {
        let mut m = MemoryGraph::new_with_defaults(NOW);
        let a = m.learn("one".to_string(), NOW);
        let b = m.learn("two".to_string(), NOW);
        m.associate(a, b, NOW).unwrap();
        m
    };
    let stats = memory.get_stats();
    assert!(should_immediate_persist(&stats, 3));
    assert!(!should_immediate_persist(&stats, 4));
}

#[test]
fn derived_ids_are_deterministic() {
    let a = leafmind::types::ConceptId::from_string("stable name");
    let b = leafmind::types::ConceptId::from_string("stable name");
    let c = leafmind::types::ConceptId::from_string("another name");
    assert_eq!(a, b);
    assert_ne!(a, c);
}

#[test]
fn identifier_text_uses_canonical_form() {
    let text = leafmind::persistence::uuid_text_exec(0);
    assert_eq!(text, b"00000000-0000-0000-0000-000000000000".to_vec());
    let text2 = leafmind::persistence::uuid_text_exec(0x0123_4567_89ab_cdef_0123_4567_89ab_cdef);
    assert_eq!(text2, b"01234567-89ab-cdef-0123-456789abcdef".to_vec());
}

#[test]
fn read_through_cache_counts_hits_and_misses() {
    let mut cache = leafmind::cache::ReadCache::new();
    let key = b"concept:k".to_vec();
    assert!(cache.lookup(&key).is_none());
    cache.store(&key, vec![1, 2, 3]);
    assert_eq!(cache.lookup(&key), Some(vec![1, 2, 3]));
    cache.store(&key, vec![9]);
    assert_eq!(cache.lookup(&key), Some(vec![9]));
    assert_eq!(cache.hits, 2);
    assert_eq!(cache.misses, 1);
    assert_eq!(cache.rate(), 666_666);
    cache.clear();
    assert_eq!(cache.rate(), 0);
    assert!(cache.lookup(&key).is_none());
}
