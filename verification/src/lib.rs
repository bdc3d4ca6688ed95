//! LeafMind: an associative memory engine.
//!
//! A graph of textual concepts linked by weighted synaptic edges that
//! strengthen with use, decay with disuse, migrate between a short-term and a
//! long-term zone, and answer associative recall queries by spreading
//! activation.  Weights and rates are fixed-point fractions of
//! [`types::UNIT`]; timestamps are seconds since the Unix epoch.

pub mod types;
pub mod graph;
pub mod plasticity;
pub mod consolidation;
pub mod forgetting;
pub mod text;
pub mod recall;
pub mod persistence;
pub mod cache;
pub mod server;

pub use types::{Concept, ConceptId, MemoryConfig, MemoryError, MemoryZone, SynapticEdge,
    SynapticWeight};
pub use graph::{MemoryGraph, MemoryStats};
pub use recall::{RecallQuery, RecallResult};
pub use consolidation::ConsolidationStats;
pub use forgetting::{ForgettingConfig, ForgettingStats};
pub use persistence::{MemoryGraphFactory, PersistenceConfig, PersistenceStats};
pub use cache::ReadCache;
pub use server::{ConceptLearnMessage, HybridConfig, ServerConfig};

