use leafmind::graph::MemoryGraph;
use leafmind::types::{SynapticWeight, UNIT};

const NOW: i64 = 1_700_000_000;

#[test]
fn strengthen_is_asymptotic_and_bounded() {
    let mut w = SynapticWeight::initial();
    assert_eq!(w.value(), 100_000);
    w.strengthen(100_000);
    // 0.1 + 0.1 * 0.9 = 0.19
    assert_eq!(w.value(), 190_000);
    let before = w.value();
    w.strengthen(500_000);
    assert!(w.value() >= before);
    assert!(w.value() <= UNIT);

    let mut full = SynapticWeight::new(UNIT);
    full.strengthen(999_999);
    assert_eq!(full.value(), UNIT);
}

#[test]
fn weaken_is_monotone_and_snaps_below_threshold() {
    let mut w = SynapticWeight::initial();
    w.weaken(500_000);
    assert_eq!(w.value(), 50_000);
    w.weaken(500_000);
    assert_eq!(w.value(), 25_000);
    w.weaken(500_000);
    assert_eq!(w.value(), 12_500);
    w.weaken(500_000);
    // 6250 is below the 0.01 activity threshold: snaps to zero.
    assert_eq!(w.value(), 0);
    w.weaken(500_000);
    assert_eq!(w.value(), 0);
}

#[test]
fn is_active_matches_threshold() {
    assert!(!SynapticWeight::new(10_000).is_active());
    assert!(SynapticWeight::new(10_001).is_active());
    assert!(!SynapticWeight::new(0).is_active());
}

#[test]
fn ltp_strengthens_working_memory_pairs() {
    let mut memory = MemoryGraph::new_with_defaults(NOW);
    let a = memory.learn("alpha".to_string(), NOW);
    let b = memory.learn("beta".to_string(), NOW);
    memory.associate(a, b, NOW).unwrap();
    let before = memory.short_term_edges[0].weight.value();
    memory.apply_ltp_strengthening(NOW);
    let after = memory.short_term_edges[0].weight.value();
    // Double learning rate: 0.1 + 0.2 * 0.9 = 0.28
    assert_eq!(before, 100_000);
    assert_eq!(after, 280_000);
}

#[test]
fn hebbian_strengthens_existing_pairs_only() {
    let mut memory = MemoryGraph::new_with_defaults(NOW);
    let a = memory.learn("alpha".to_string(), NOW);
    let b = memory.learn("beta".to_string(), NOW);
    let c = memory.learn("gamma".to_string(), NOW);
    memory.associate(a, b, NOW).unwrap();

    let before = memory.short_term_edges[0].weight.value();
    let ids = vec![a, b, c];
    memory.hebbian_strengthening(&ids, NOW);
    let after = memory.short_term_edges[0].weight.value();
    assert!(after > before);
    // No new edge was created for the pairs that had none.
    assert_eq!(memory.get_stats().short_term_connections, 1);
}

#[test]
fn competitive_learning_boosts_winners_and_saps_losers() {
    let mut memory = MemoryGraph::new_with_defaults(NOW);
    let w1 = memory.learn("winner one".to_string(), NOW);
    let w2 = memory.learn("winner two".to_string(), NOW);
    let l1 = memory.learn("loser one".to_string(), NOW);
    let l2 = memory.learn("loser two".to_string(), NOW);
    memory.associate(w1, w2, NOW).unwrap();
    memory.associate(l1, l2, NOW).unwrap();

    let winners = vec![w1];
    let losers = vec![l1];
    memory.competitive_learning(&winners, &losers, NOW);

    let mut winner_weight = 0;
    let mut loser_weight = 0;
    for e in memory.short_term_edges.iter() {
        if e.from == w1 {
            winner_weight = e.weight.value();
        }
        if e.from == l1 {
            loser_weight = e.weight.value();
        }
    }
    // Winner: 0.1 + 0.15 * 0.9 = 0.235; loser: 0.1 * (1 - 0.02) = 0.098
    assert_eq!(winner_weight, 235_000);
    assert_eq!(loser_weight, 98_000);
}

#[test]
fn sleep_cycle_clears_old_working_memory() {
    let mut memory = MemoryGraph::new_with_defaults(NOW);
    let _a = memory.learn("early".to_string(), NOW - 7200);
    let _b = memory.learn("late".to_string(), NOW);
    assert_eq!(memory.get_stats().working_memory_size, 2);
    memory.sleep_cycle(NOW);
    assert_eq!(memory.get_stats().working_memory_size, 1);
}

#[test]
fn reconsolidation_moves_edges_back_to_short_term() {
    let mut memory = MemoryGraph::new_with_defaults(NOW);
    let a = memory.learn("alpha".to_string(), NOW);
    let b = memory.learn("beta".to_string(), NOW);
    for _ in 0..3 {
        memory.associate(a, b, NOW).unwrap();
    }
    for _ in 0..5 {
        memory.access_concept(a, NOW).unwrap();
        memory.access_concept(b, NOW).unwrap();
    }
    for edge in memory.short_term_edges.iter_mut() {
        edge.created_at = NOW - 7200;
    }
    memory.consolidate_memory(NOW);
    assert_eq!(memory.get_stats().long_term_connections, 1);
    let lt_weight = memory.long_term_edges[0].weight.value();

    let ids = vec![a];
    memory.reconsolidate(&ids, NOW);
    assert_eq!(memory.get_stats().long_term_connections, 0);
    assert_eq!(memory.get_stats().short_term_connections, 1);
    // The weight is scaled by 0.9 on the way back.
    assert_eq!(memory.short_term_edges[0].weight.value(), lt_weight * 9 / 10);
}

#[test]
fn schema_consolidation_strengthens_shared_patterns() {
    let mut memory = MemoryGraph::new_with_defaults(NOW);
    // Six long-term edges whose endpoint contents share the same two tokens.
    for i in 0..6 {
        let a = memory.learn(format!("alpha beta src{}", i), NOW);
        let b = memory.learn(format!("alpha beta dst{}", i), NOW);
        memory.associate(a, b, NOW).unwrap();
    }
    // Promote the edges to long-term and raise their weights (a test hook):
    // summed pattern weight 6 * 0.9 = 5.4 exceeds the 5.0 bar.
    let edges = memory.short_term_edges.split_off(0);
    memory.long_term_edges = edges;
    for e in memory.long_term_edges.iter_mut() {
        e.weight = SynapticWeight(900_000);
    }

    memory.schema_consolidation();
    for e in memory.long_term_edges.iter() {
        // 0.9 + 0.05 * 0.1 = 0.905
        assert_eq!(e.weight.value(), 905_000);
    }
}

#[test]
fn extract_pattern_keeps_common_tokens() {
    let memory = MemoryGraph::new_with_defaults(NOW);
    let a = "The quick Fox".to_string();
    let b = "a quick brown fox".to_string();
    let pattern = memory.extract_pattern(&a, &b);
    assert_eq!(pattern.len(), 2);
    assert_eq!(pattern[0], b"quick".to_vec());
    assert_eq!(pattern[1], b"fox".to_vec());

    let c = "nothing shared".to_string();
    assert!(memory.extract_pattern(&a, &c).is_empty());
}
