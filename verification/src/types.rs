//! Core value objects: identifiers, concepts, synaptic weights and edges,
//! configuration, and the error kinds shared by the whole engine.

use vstd::prelude::*;
use vstd::string::StringSliceAdditionalSpecFns;

verus! {

/// Fixed-point unit.  A weight, rate or relevance score `x` stands for the
/// real number `x / UNIT`; `UNIT` itself stands for `1.0`.
pub const UNIT: u64 = 1_000_000;

/// Weight given to a freshly created edge (`0.1`).
pub const INITIAL_WEIGHT: u64 = 100_000;

/// Weights at or below this are considered inactive (`0.01`).
pub const ACTIVITY_THRESHOLD: u64 = 10_000;

/// The error kinds of the engine.
#[derive(Debug, Clone, Copy, PartialEq, Eq, Structural)]
pub enum MemoryError {
    /// An operation referenced a missing concept identifier.
    UnknownConcept,
    /// Empty content, malformed identifier, or an out-of-range parameter.
    InvalidInput,
    /// A failure from the underlying store or filesystem.
    StorageError,
    /// A serialization or deserialization failure (treated as corruption).
    EncodingError,
    /// Shutdown was signalled while a background task awaited a tick.
    Cancelled,
}

/// A 128-bit opaque concept identifier.  Equality and hashing are by the
/// identifier value alone.
#[derive(Debug, Clone, Copy, PartialEq, Eq, Hash, Structural)]
pub struct ConceptId(pub u128);

/// The identifier that `ConceptId::from_string` derives from a name; it is a
/// digest, a function of the name's bytes alone.
pub uninterp spec fn derived_id_of(name: Seq<u8>) -> u128;

impl ConceptId {
    /// Relies on `uuid::Uuid::new_v4`: a freshly generated random identifier.
    /// Nothing is promised of the value; callers must handle every outcome.
    #[verifier::external_body]
    pub fn new() -> Self {
        ConceptId(uuid::Uuid::new_v4().as_u128())
    }

    /// Relies on `uuid::Uuid::new_v5`: a name-based identifier, a digest of
    /// the OID namespace and the given bytes, depending on them alone.
    #[verifier::external_body]
    pub fn from_string(s: &str) -> (r: Self)
        ensures
            r.0 == derived_id_of(s.spec_bytes()),
    {
        ConceptId(uuid::Uuid::new_v5(&uuid::Uuid::NAMESPACE_OID, s.as_bytes()).as_u128())
    }
}

impl Default for ConceptId {
    /// A fresh random identifier.
    fn default() -> Self {
        ConceptId::new()
    }
}

/// The strength of a synaptic connection: a fixed-point fraction of [`UNIT`],
/// held in `[0, UNIT]`.
#[derive(Debug, Clone, Copy, PartialEq, Eq, Structural)]
pub struct SynapticWeight(pub u64);

/// The weight after asymptotic strengthening with `rate`:
/// `w + rate * (1 - w)`, saturating at `UNIT`.
pub open spec fn strengthen_val(w: u64, rate: u64) -> u64 {
    if rate >= UNIT {
        UNIT
    } else {
        (w + rate * (UNIT - w) / (UNIT as int)) as u64
    }
}

/// The weight after multiplicative weakening with `rate`:
/// `w * (1 - rate)`, snapping to `0` below the activity threshold.
pub open spec fn weaken_val(w: u64, rate: u64) -> u64 {
    if rate >= UNIT {
        0
    } else {
        let d = (w * (UNIT - rate) / (UNIT as int)) as u64;
        if d < ACTIVITY_THRESHOLD {
            0
        } else {
            d
        }
    }
}

/// A weight is active exactly when it exceeds the activity threshold.
pub open spec fn weight_active(w: u64) -> bool {
    w > ACTIVITY_THRESHOLD
}

impl SynapticWeight {
    /// A weight is well formed when it does not exceed `UNIT`.
    pub open spec fn wf(self) -> bool {
        self.0 <= UNIT
    }

    /// Clamp an arbitrary value into the valid range.
    pub fn new(value: u64) -> (r: Self)
        ensures
            r.0 == if value > UNIT { UNIT } else { value },
            r.wf(),
    {
        if value > UNIT {
            SynapticWeight(UNIT)
        } else {
            SynapticWeight(value)
        }
    }

    /// The weight of a freshly created edge.
    pub fn initial() -> (r: Self)
        ensures
            r.0 == INITIAL_WEIGHT,
            r.wf(),
    {
        SynapticWeight(INITIAL_WEIGHT)
    }

    /// Long-term potentiation: asymptotic strengthening towards `UNIT`.
    pub fn strengthen(&mut self, rate: u64)
        requires
            old(self).wf(),
        ensures
            final(self).0 == strengthen_val(old(self).0, rate),
            final(self).wf(),
            final(self).0 >= old(self).0,
    {
        proof {
            lemma_strengthen_bounds(self.0, rate);
        }
        if rate >= UNIT {
            self.0 = UNIT;
        } else {
            let gap: u64 = UNIT - self.0;
            assert(rate * gap <= 1_000_000 * 1_000_000) by (nonlinear_arith)
                requires
                    rate <= 1_000_000,
                    gap <= 1_000_000,
            ;
            self.0 = self.0 + rate * gap / UNIT;
        }
    }

    /// Long-term depression: multiplicative decay, snapping to `0` below the
    /// activity threshold.
    pub fn weaken(&mut self, rate: u64)
        requires
            old(self).wf(),
        ensures
            final(self).0 == weaken_val(old(self).0, rate),
            final(self).wf(),
            final(self).0 <= old(self).0,
    {
        proof {
            lemma_weaken_bounds(self.0, rate);
        }
        if rate >= UNIT {
            self.0 = 0;
        } else {
            let keep: u64 = UNIT - rate;
            assert(self.0 * keep <= 1_000_000 * 1_000_000) by (nonlinear_arith)
                requires
                    self.0 <= 1_000_000,
                    keep <= 1_000_000,
            ;
            let d: u64 = self.0 * keep / UNIT;
            if d < ACTIVITY_THRESHOLD {
                self.0 = 0;
            } else {
                self.0 = d;
            }
        }
    }

    /// Whether the connection is active: strictly above the threshold.
    pub fn is_active(&self) -> (r: bool)
        ensures
            r == weight_active(self.0),
    {
        self.0 > ACTIVITY_THRESHOLD
    }

    /// The raw fixed-point value.
    pub fn value(&self) -> (r: u64)
        ensures
            r == self.0,
    {
        self.0
    }
}

impl Default for SynapticWeight {
    /// The initial weight of a fresh edge.
    fn default() -> (r: Self)
        ensures
            r.0 == INITIAL_WEIGHT,
    {
        SynapticWeight(INITIAL_WEIGHT)
    }
}

/// A concept node: addressable content with identity and access metadata.
#[derive(Debug, Clone)]
pub struct Concept {
    pub id: ConceptId,
    pub content: String,
    pub metadata: Vec<(String, String)>,
    pub created_at: i64,
    pub last_accessed: i64,
    pub access_count: u64,
}

/// The concept after one access at time `now`.
pub open spec fn accessed_concept(c: Concept, now: i64) -> Concept {
    Concept {
        last_accessed: now,
        access_count: if c.access_count < u64::MAX {
            (c.access_count + 1) as u64
        } else {
            u64::MAX
        },
        ..c
    }
}

impl Concept {
    /// Create a concept with a fresh random identifier.
    pub fn new(content: String, now: i64) -> (r: Self)
        ensures
            r.content@ == content@,
            r.metadata@ =~= Seq::<(String, String)>::empty(),
            r.created_at == now,
            r.last_accessed == now,
            r.access_count == 0,
    {
        Concept {
            id: ConceptId::new(),
            content,
            metadata: Vec::new(),
            created_at: now,
            last_accessed: now,
            access_count: 0,
        }
    }

    /// Create a concept under a caller-supplied identifier.
    pub fn with_id(id: ConceptId, content: String, now: i64) -> (r: Self)
        ensures
            r.id == id,
            r.content@ == content@,
            r.metadata@ =~= Seq::<(String, String)>::empty(),
            r.created_at == now,
            r.last_accessed == now,
            r.access_count == 0,
    {
        Concept {
            id,
            content,
            metadata: Vec::new(),
            created_at: now,
            last_accessed: now,
            access_count: 0,
        }
    }

    /// Record one access: refresh the timestamp and bump the counter.  The
    /// access count is monotone non-decreasing, saturating at `u64::MAX`.
    pub fn access(&mut self, now: i64)
        ensures
            *final(self) == accessed_concept(*old(self), now),
            final(self).access_count >= old(self).access_count,
    {
        self.last_accessed = now;
        if self.access_count < u64::MAX {
            self.access_count = self.access_count + 1;
        }
    }

    /// An element-wise copy, equal to `self` as a value.
    pub fn duplicate(&self) -> (r: Self)
        ensures
            r.id == self.id,
            r.content@ == self.content@,
            r.metadata.deep_view() == self.metadata.deep_view(),
            r.created_at == self.created_at,
            r.last_accessed == self.last_accessed,
            r.access_count == self.access_count,
    {
        let mut metadata: Vec<(String, String)> = Vec::new();
        let mut i: usize = 0;
        while i < self.metadata.len()
            invariant
                i <= self.metadata@.len(),
                metadata.deep_view() =~~= self.metadata.deep_view().take(i as int),
            decreases self.metadata@.len() - i,
        {
            let pair = (self.metadata[i].0.clone(), self.metadata[i].1.clone());
            metadata.push(pair);
            proof {
                assert(metadata.deep_view() =~~= self.metadata.deep_view().take(i + 1));
            }
            i = i + 1;
        }
        proof {
            assert(metadata.deep_view() =~~= self.metadata.deep_view());
        }
        Concept {
            id: self.id,
            content: self.content.clone(),
            metadata,
            created_at: self.created_at,
            last_accessed: self.last_accessed,
            access_count: self.access_count,
        }
    }
}

/// A directed synaptic edge between two concepts.
#[derive(Debug, Clone, Copy, PartialEq, Eq, Structural)]
pub struct SynapticEdge {
    pub from: ConceptId,
    pub to: ConceptId,
    pub weight: SynapticWeight,
    pub created_at: i64,
    pub last_accessed: i64,
    pub activation_count: u64,
}

/// The edge after one activation with `rate` at time `now`.
pub open spec fn activated_edge(e: SynapticEdge, rate: u64, now: i64) -> SynapticEdge {
    SynapticEdge {
        weight: SynapticWeight(strengthen_val(e.weight.0, rate)),
        last_accessed: now,
        activation_count: if e.activation_count < u64::MAX {
            (e.activation_count + 1) as u64
        } else {
            u64::MAX
        },
        ..e
    }
}

/// The edge after decay with `rate`.
pub open spec fn decayed_edge(e: SynapticEdge, rate: u64) -> SynapticEdge {
    SynapticEdge { weight: SynapticWeight(weaken_val(e.weight.0, rate)), ..e }
}

impl SynapticEdge {
    /// An edge is well formed when its weight is.
    pub open spec fn wf(self) -> bool {
        self.weight.wf()
    }

    /// Create a fresh short-term edge at the initial weight.
    pub fn new(from: ConceptId, to: ConceptId, now: i64) -> (r: Self)
        ensures
            r.from == from,
            r.to == to,
            r.weight.0 == INITIAL_WEIGHT,
            r.created_at == now,
            r.last_accessed == now,
            r.activation_count == 0,
            r.wf(),
    {
        SynapticEdge {
            from,
            to,
            weight: SynapticWeight::initial(),
            created_at: now,
            last_accessed: now,
            activation_count: 0,
        }
    }

    /// Strengthen the weight, refresh the access timestamp, and bump the
    /// activation counter (monotone, saturating at `u64::MAX`).
    pub fn activate(&mut self, rate: u64, now: i64)
        requires
            old(self).wf(),
        ensures
            *final(self) == activated_edge(*old(self), rate, now),
            final(self).wf(),
            final(self).weight.0 >= old(self).weight.0,
            final(self).activation_count >= old(self).activation_count,
    {
        self.weight.strengthen(rate);
        self.last_accessed = now;
        if self.activation_count < u64::MAX {
            self.activation_count = self.activation_count + 1;
        }
    }

    /// Weaken the weight multiplicatively.
    pub fn decay(&mut self, rate: u64)
        requires
            old(self).wf(),
        ensures
            *final(self) == decayed_edge(*old(self), rate),
            final(self).wf(),
            final(self).weight.0 <= old(self).weight.0,
    {
        self.weight.weaken(rate);
    }

    /// Whether the edge's weight is above the activity threshold.
    pub fn is_active(&self) -> (r: bool)
        ensures
            r == weight_active(self.weight.0),
    {
        self.weight.is_active()
    }
}

/// The memory zones, mimicking different brain regions.
#[derive(Debug, Clone, Copy, PartialEq, Eq, Structural)]
pub enum MemoryZone {
    /// Hippocampus analog: temporary storage awaiting consolidation.
    ShortTerm,
    /// Cortex analog: long-term storage.
    LongTerm,
    /// Working memory: concepts under active processing.
    Working,
}

/// Configuration of the memory engine.  The rates and the consolidation
/// threshold are fixed-point fractions of [`UNIT`].
#[derive(Debug, Clone)]
pub struct MemoryConfig {
    pub learning_rate: u64,
    pub decay_rate: u64,
    pub consolidation_threshold: u64,
    pub max_short_term_connections: usize,
    pub consolidation_interval_hours: u64,
    pub max_recall_results: usize,
}

impl MemoryConfig {
    /// A configuration is well formed when its rates and threshold are valid
    /// fractions.
    pub open spec fn wf(self) -> bool {
        &&& self.learning_rate <= UNIT
        &&& self.decay_rate <= UNIT
        &&& self.consolidation_threshold <= UNIT
    }
}

impl Default for MemoryConfig {
    /// 10% strengthening per activation, 1% decay per cycle, 50% strength for
    /// long-term promotion, daily consolidation.
    fn default() -> (r: Self)
        ensures
            r.learning_rate == 100_000,
            r.decay_rate == 10_000,
            r.consolidation_threshold == 500_000,
            r.max_short_term_connections == 10_000,
            r.consolidation_interval_hours == 24,
            r.max_recall_results == 20,
            r.wf(),
    {
        MemoryConfig {
            learning_rate: 100_000,
            decay_rate: 10_000,
            consolidation_threshold: 500_000,
            max_short_term_connections: 10_000,
            consolidation_interval_hours: 24,
            max_recall_results: 20,
        }
    }
}

/// Strengthening never decreases a weight, never exceeds `UNIT`, and is
/// idempotent at its fixed point `UNIT`.
pub proof fn lemma_strengthen_bounds(w: u64, rate: u64)
    requires
        w <= UNIT,
    ensures
        strengthen_val(w, rate) >= w,
        strengthen_val(w, rate) <= UNIT,
        w == UNIT ==> strengthen_val(w, rate) == UNIT,
{
    if rate < UNIT {
        let gap = UNIT - w;
        assert(rate * gap >= 0) by (nonlinear_arith)
            requires
                rate >= 0,
                gap >= 0,
        ;
        assert(rate * gap / (UNIT as int) <= gap) by (nonlinear_arith)
            requires
                rate < UNIT,
                gap >= 0,
                UNIT > 0,
                rate * gap >= 0,
        ;
        assert(rate * gap / (UNIT as int) >= 0);
    }
}

/// Weakening never increases a weight and never goes below `0`; `0` is its
/// fixed point.
pub proof fn lemma_weaken_bounds(w: u64, rate: u64)
    requires
        w <= UNIT,
    ensures
        weaken_val(w, rate) <= w,
        w == 0 ==> weaken_val(w, rate) == 0,
{
    if rate < UNIT {
        let keep = UNIT - rate;
        assert(w * keep / (UNIT as int) <= w) by (nonlinear_arith)
            requires
                keep <= UNIT,
                w >= 0,
                UNIT > 0,
        ;
        assert(w * keep >= 0) by (nonlinear_arith)
            requires
                w >= 0,
                keep >= 0,
        ;
    }
}

} // verus!
