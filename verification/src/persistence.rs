//! The durable layout: typed keys, deterministic binary encodings of the
//! value objects, full-graph snapshots, and their reconstruction.
//!
//! Keys are ASCII-prefixed byte strings; values are fixed-layout big-endian
//! encodings.  A snapshot lists every entity as a key/value pair; rebuilding
//! a snapshot reproduces the graph exactly.

use vstd::prelude::*;
use vstd::string::StringSliceAdditionalSpecFns;
use crate::types::{Concept, ConceptId, MemoryConfig, SynapticEdge, SynapticWeight, MemoryError,
    UNIT};
use crate::graph::{MemoryGraph, MemoryStats, concept_eq, has_concept_id, concept_ids_unique};

verus! {

/// Persistence configuration.
#[derive(Debug, Clone)]
pub struct PersistenceConfig {
    /// Database directory path.
    pub db_path: String,
    /// Auto-save interval in seconds; zero disables auto-save.
    pub auto_save_interval_seconds: u64,
    /// Batch size for bulk writes.
    pub batch_size: usize,
    /// Whether the store compresses its files.
    pub enable_compression: bool,
    /// Entity count at which mutations are written through immediately.
    pub max_cache_size: usize,
    /// Whether the store keeps a write-ahead log.
    pub enable_wal: bool,
}

impl Default for PersistenceConfig {
    /// Five-minute auto-save, thousand-entry batches, compression and the
    /// write-ahead log on.
    fn default() -> (r: Self)
        ensures
            r.auto_save_interval_seconds == 300,
            r.batch_size == 1000,
            r.enable_compression == true,
            r.max_cache_size == 100_000,
            r.enable_wal == true,
    {
        PersistenceConfig {
            db_path: default_db_path(),
            auto_save_interval_seconds: 300,
            batch_size: 1000,
            enable_compression: true,
            max_cache_size: 100_000,
            enable_wal: true,
        }
    }
}

/// The default database path.
fn default_db_path() -> String {
    "leafmind.db".to_owned()
}

/// Statistics about persistence operations.  The cache hit rate is a
/// fixed-point fraction of [`UNIT`].
#[derive(Debug, Clone, Copy, PartialEq, Eq, Structural)]
pub struct PersistenceStats {
    pub total_concepts_stored: u64,
    pub total_edges_stored: u64,
    pub last_save_time: i64,
    pub last_load_time: i64,
    pub save_count: u64,
    pub load_count: u64,
    pub database_size_bytes: u64,
    pub cache_hit_rate: u64,
}

impl PersistenceStats {
    /// Fresh statistics, as of the given time.
    pub fn new(now: i64) -> (r: Self)
        ensures
            r.total_concepts_stored == 0,
            r.total_edges_stored == 0,
            r.last_save_time == now,
            r.last_load_time == now,
            r.save_count == 0,
            r.load_count == 0,
            r.database_size_bytes == 0,
            r.cache_hit_rate == 0,
    {
        PersistenceStats {
            total_concepts_stored: 0,
            total_edges_stored: 0,
            last_save_time: now,
            last_load_time: now,
            save_count: 0,
            load_count: 0,
            database_size_bytes: 0,
            cache_hit_rate: 0,
        }
    }
}

/// The cache hit rate, as a fraction of [`UNIT`]: hits over lookups, zero
/// when nothing was looked up.
pub open spec fn hit_rate(hits: u64, misses: u64) -> u64 {
    if hits + misses == 0 {
        0
    } else {
        (((hits * UNIT) as int) / (hits + misses)) as u64
    }
}

/// Compute the cache hit rate.
pub fn hit_rate_exec(hits: u64, misses: u64) -> (r: u64)
    ensures
        r == hit_rate(hits, misses),
        r <= UNIT,
{
    if hits == 0 && misses == 0 {
        0
    } else {
        let total: u128 = (hits as u128) + (misses as u128);
        let scaled: u128 = (hits as u128) * (UNIT as u128);
        let rate = scaled / total;
        proof {
            assert((hits as int) * (UNIT as int) / ((hits as int) + (misses as int)) <= UNIT)
                by (nonlinear_arith)
                requires
                    hits >= 0,
                    misses >= 0,
                    (hits as int) + (misses as int) >= 1,
                    (hits as int) <= (hits as int) + (misses as int),
                    UNIT >= 1,
            ;
        }
        rate as u64
    }
}

/// Whether the combined entity count has reached the write-through bound.
pub open spec fn immediate_persist_due(stats: MemoryStats, max_cache_size: usize) -> bool {
    stats.total_concepts + stats.short_term_connections + stats.long_term_connections
        >= max_cache_size
}

/// The facade's write-through policy: persist a mutated entity right away
/// once the in-memory entity count reaches the configured bound.
pub fn should_immediate_persist(stats: &MemoryStats, max_cache_size: usize) -> (r: bool)
    ensures
        r == immediate_persist_due(*stats, max_cache_size),
{
    let total: u128 = (stats.total_concepts as u128) + (stats.short_term_connections as u128)
        + (stats.long_term_connections as u128);
    total >= (max_cache_size as u128)
}

/// The big-endian bytes of a 64-bit value.
pub open spec fn u64_bytes(x: u64) -> Seq<u8> {
    seq![
        (x >> 56) as u8,
        (x >> 48) as u8,
        (x >> 40) as u8,
        (x >> 32) as u8,
        (x >> 24) as u8,
        (x >> 16) as u8,
        (x >> 8) as u8,
        x as u8,
    ]
}

/// The 64-bit value read from eight big-endian bytes.
pub open spec fn u64_of_bytes(b: Seq<u8>) -> u64 {
    ((b[0] as u64) << 56) | ((b[1] as u64) << 48) | ((b[2] as u64) << 40) | ((b[3] as u64) << 32)
        | ((b[4] as u64) << 24) | ((b[5] as u64) << 16) | ((b[6] as u64) << 8) | (b[7] as u64)
}

/// Eight big-endian bytes round-trip.
pub proof fn lemma_u64_roundtrip(x: u64)
    ensures
        u64_of_bytes(u64_bytes(x)) == x,
{
    assert((((x >> 56) as u8) as u64) << 56 | (((x >> 48) as u8) as u64) << 48 | (((x >> 40) as u8)
        as u64) << 40 | (((x >> 32) as u8) as u64) << 32 | (((x >> 24) as u8) as u64) << 24 | (((x
        >> 16) as u8) as u64) << 16 | (((x >> 8) as u8) as u64) << 8 | ((x as u8) as u64) == x)
        by (bit_vector);
}

/// Append the big-endian bytes of a 64-bit value.
pub fn push_u64(out: &mut Vec<u8>, x: u64)
    ensures
        final(out)@ == old(out)@ + u64_bytes(x),
{
    let ghost s0 = out@;
    out.push((x >> 56) as u8);
    out.push((x >> 48) as u8);
    out.push((x >> 40) as u8);
    out.push((x >> 32) as u8);
    out.push((x >> 24) as u8);
    out.push((x >> 16) as u8);
    out.push((x >> 8) as u8);
    out.push(x as u8);
    proof {
        assert(out@ =~= s0 + u64_bytes(x));
    }
}

/// Read a 64-bit value from eight bytes at `at`.
pub fn read_u64(b: &Vec<u8>, at: usize) -> (r: u64)
    requires
        at + 8 <= b@.len(),
    ensures
        r == u64_of_bytes(b@.subrange(at as int, at as int + 8)),
{
    let n = b.len();
    let r = ((b[at] as u64) << 56) | ((b[at + 1] as u64) << 48) | ((b[at + 2] as u64) << 40) | ((
    b[at + 3] as u64) << 32) | ((b[at + 4] as u64) << 24) | ((b[at + 5] as u64) << 16) | ((b[at
        + 6] as u64) << 8) | (b[at + 7] as u64);
    proof {
        let s = b@.subrange(at as int, at as int + 8);
        assert(s[0] == b@[at as int]);
        assert(s[1] == b@[at as int + 1]);
        assert(s[2] == b@[at as int + 2]);
        assert(s[3] == b@[at as int + 3]);
        assert(s[4] == b@[at as int + 4]);
        assert(s[5] == b@[at as int + 5]);
        assert(s[6] == b@[at as int + 6]);
        assert(s[7] == b@[at as int + 7]);
    }
    r
}

/// The big-endian bytes of a 128-bit value: high half then low half.
pub open spec fn u128_bytes(x: u128) -> Seq<u8> {
    u64_bytes((x >> 64) as u64) + u64_bytes(x as u64)
}

/// The 128-bit value read from sixteen big-endian bytes.
pub open spec fn u128_of_bytes(b: Seq<u8>) -> u128 {
    ((u64_of_bytes(b.subrange(0, 8)) as u128) << 64) | (u64_of_bytes(b.subrange(8, 16)) as u128)
}

/// Sixteen big-endian bytes round-trip.
pub proof fn lemma_u128_roundtrip(x: u128)
    ensures
        u128_of_bytes(u128_bytes(x)) == x,
{
    lemma_u64_roundtrip((x >> 64) as u64);
    lemma_u64_roundtrip(x as u64);
    assert(u128_bytes(x).subrange(0, 8) =~= u64_bytes((x >> 64) as u64));
    assert(u128_bytes(x).subrange(8, 16) =~= u64_bytes(x as u64));
    let hi = (x >> 64) as u64;
    let lo = x as u64;
    assert(((hi as u128) << 64) | (lo as u128) == x) by (bit_vector)
        requires
            hi == (x >> 64) as u64,
            lo == x as u64,
    ;
}

/// Append the big-endian bytes of a 128-bit value.
pub fn push_u128(out: &mut Vec<u8>, x: u128)
    ensures
        final(out)@ == old(out)@ + u128_bytes(x),
{
    let ghost s0 = out@;
    push_u64(out, (x >> 64) as u64);
    push_u64(out, x as u64);
    proof {
        assert(out@ =~= s0 + u128_bytes(x));
    }
}

/// Read a 128-bit value from sixteen bytes at `at`.
pub fn read_u128(b: &Vec<u8>, at: usize) -> (r: u128)
    requires
        at + 16 <= b@.len(),
    ensures
        r == u128_of_bytes(b@.subrange(at as int, at as int + 16)),
{
    let n = b.len();
    let hi = read_u64(b, at);
    let lo = read_u64(b, at + 8);
    proof {
        let s = b@.subrange(at as int, at as int + 16);
        assert(s.subrange(0, 8) =~= b@.subrange(at as int, at as int + 8));
        assert(s.subrange(8, 16) =~= b@.subrange(at as int + 8, at as int + 16));
    }
    ((hi as u128) << 64) | (lo as u128)
}

/// The encoding of a signed timestamp: its two's-complement bits, big
/// endian.
pub open spec fn i64_bytes(x: i64) -> Seq<u8> {
    u64_bytes(x as u64)
}

/// The signed value read back from eight bytes.
pub open spec fn i64_of_bytes(b: Seq<u8>) -> i64 {
    u64_of_bytes(b) as i64
}

/// Signed eight-byte values round-trip.
pub proof fn lemma_i64_roundtrip(x: i64)
    ensures
        i64_of_bytes(i64_bytes(x)) == x,
{
    lemma_u64_roundtrip(x as u64);
    assert(((x as u64) as i64) == x) by (bit_vector);
}

/// Relies on `String::from_utf8`: succeeds exactly on valid UTF-8, and the
/// returned string's bytes are the input bytes.
#[verifier::external_body]
fn string_from_utf8(v: Vec<u8>) -> (r: Option<String>)
    ensures
        r.is_some() == vstd::utf8::valid_utf8(v@),
        r.is_some() ==> vstd::utf8::encode_utf8(r.unwrap()@) == v@,
{
    match String::from_utf8(v) {
        Ok(s) => Some(s),
        Err(_) => None,
    }
}

/// A length-prefixed UTF-8 string: eight length bytes, then the bytes.
pub open spec fn str_enc(s: Seq<char>) -> Seq<u8> {
    let b = vstd::utf8::encode_utf8(s);
    u64_bytes(b.len() as u64) + b
}

/// The encoding of one metadata list.
pub open spec fn meta_enc(m: Seq<(Seq<char>, Seq<char>)>) -> Seq<u8>
    decreases m.len(),
{
    if m.len() == 0 {
        Seq::empty()
    } else {
        meta_enc(m.drop_last()) + str_enc(m.last().0) + str_enc(m.last().1)
    }
}

/// The encoding of a concept: identifier, timestamps, access count, content,
/// metadata count and pairs.
pub open spec fn concept_enc(c: Concept) -> Seq<u8> {
    u128_bytes(c.id.0) + i64_bytes(c.created_at) + i64_bytes(c.last_accessed) + u64_bytes(
        c.access_count,
    ) + str_enc(c.content@) + u64_bytes(c.metadata.deep_view().len() as u64) + meta_enc(
        c.metadata.deep_view(),
    )
}

/// The encoding of a synaptic edge.
pub open spec fn edge_enc(e: SynapticEdge) -> Seq<u8> {
    u128_bytes(e.from.0) + u128_bytes(e.to.0) + u64_bytes(e.weight.0) + i64_bytes(e.created_at)
        + i64_bytes(e.last_accessed) + u64_bytes(e.activation_count)
}

/// The encoding of a working-memory entry: the identifier and the touch
/// time.
pub open spec fn working_enc(id: ConceptId, at: i64) -> Seq<u8> {
    u128_bytes(id.0) + i64_bytes(at)
}

/// The encoding of the engine configuration.
pub open spec fn config_enc(c: MemoryConfig) -> Seq<u8> {
    u64_bytes(c.learning_rate) + u64_bytes(c.decay_rate) + u64_bytes(c.consolidation_threshold)
        + u64_bytes(c.max_short_term_connections as u64) + u64_bytes(
        c.consolidation_interval_hours,
    ) + u64_bytes(c.max_recall_results as u64)
}

/// Append a length-prefixed string.
fn push_str(out: &mut Vec<u8>, s: &String)
    ensures
        final(out)@ == old(out)@ + str_enc(s@),
        vstd::utf8::encode_utf8(s@).len() < 18_446_744_073_709_551_616,
{
    let ghost s0 = out@;
    let bytes = s.as_str().as_bytes();
    let n = bytes.len();
    push_u64(out, n as u64);
    let ghost s1 = out@;
    let mut i: usize = 0;
    while i < n
        invariant
            i <= n,
            n == bytes@.len(),
            bytes@ == vstd::utf8::encode_utf8(s@),
            out@ == s1 + bytes@.take(i as int),
        decreases n - i,
    {
        out.push(bytes[i]);
        proof {
            assert(out@ =~= s1 + bytes@.take(i as int + 1));
        }
        i = i + 1;
    }
    proof {
        assert(bytes@.take(n as int) =~= bytes@);
        assert(out@ =~= s0 + str_enc(s@));
    }
}

/// Encode a concept.
pub fn encode_concept(c: &Concept) -> (r: Vec<u8>)
    ensures
        r@ == concept_enc(*c),
        concept_sized(*c),
{
    let mut out: Vec<u8> = Vec::new();
    push_u128(&mut out, c.id.0);
    push_u64(&mut out, c.created_at as u64);
    push_u64(&mut out, c.last_accessed as u64);
    push_u64(&mut out, c.access_count);
    push_str(&mut out, &c.content);
    push_u64(&mut out, c.metadata.len() as u64);
    let ghost base = out@;
    let ghost meta = c.metadata.deep_view();
    let mut i: usize = 0;
    while i < c.metadata.len()
        invariant
            i <= meta.len(),
            meta == c.metadata.deep_view(),
            c.metadata@.len() == meta.len(),
            out@ == base + meta_enc(meta.take(i as int)),
            forall|k: int|
                0 <= k < i ==> vstd::utf8::encode_utf8((#[trigger] meta[k]).0).len()
                    < 18_446_744_073_709_551_616 && vstd::utf8::encode_utf8(meta[k].1).len()
                    < 18_446_744_073_709_551_616,
        decreases meta.len() - i,
    {
        proof {
            assert(meta.take(i as int + 1).drop_last() =~= meta.take(i as int));
            assert(meta.take(i as int + 1).last() == meta[i as int]);
            assert(meta[i as int] == (c.metadata@[i as int].0@, c.metadata@[i as int].1@));
        }
        push_str(&mut out, &c.metadata[i].0);
        push_str(&mut out, &c.metadata[i].1);
        i = i + 1;
    }
    proof {
        assert(meta.take(meta.len() as int) =~= meta);
        assert((meta.len() as u64) == (c.metadata@.len() as u64));
    }
    out
}

/// Encode a synaptic edge.
pub fn encode_edge(e: &SynapticEdge) -> (r: Vec<u8>)
    ensures
        r@ == edge_enc(*e),
{
    let mut out: Vec<u8> = Vec::new();
    push_u128(&mut out, e.from.0);
    push_u128(&mut out, e.to.0);
    push_u64(&mut out, e.weight.value());
    push_u64(&mut out, e.created_at as u64);
    push_u64(&mut out, e.last_accessed as u64);
    push_u64(&mut out, e.activation_count);
    out
}

/// Encode a working-memory entry.
pub fn encode_working(id: ConceptId, at: i64) -> (r: Vec<u8>)
    ensures
        r@ == working_enc(id, at),
{
    let mut out: Vec<u8> = Vec::new();
    push_u128(&mut out, id.0);
    push_u64(&mut out, at as u64);
    out
}

/// Encode the engine configuration.
pub fn encode_config(c: &MemoryConfig) -> (r: Vec<u8>)
    ensures
        r@ == config_enc(*c),
{
    let mut out: Vec<u8> = Vec::new();
    push_u64(&mut out, c.learning_rate);
    push_u64(&mut out, c.decay_rate);
    push_u64(&mut out, c.consolidation_threshold);
    push_u64(&mut out, c.max_short_term_connections as u64);
    push_u64(&mut out, c.consolidation_interval_hours);
    push_u64(&mut out, c.max_recall_results as u64);
    out
}

/// The pair encodings of a metadata list from index `j` on, in order.
pub open spec fn meta_enc_from(m: Seq<(Seq<char>, Seq<char>)>, j: int) -> Seq<u8>
    decreases m.len() - j,
{
    if j < 0 || j >= m.len() {
        Seq::empty()
    } else {
        str_enc(m[j].0) + str_enc(m[j].1) + meta_enc_from(m, j + 1)
    }
}

/// The right-recursive and left-recursive metadata encodings agree.
pub proof fn lemma_meta_enc_agree(m: Seq<(Seq<char>, Seq<char>)>)
    ensures
        meta_enc(m) == meta_enc_from(m, 0),
    decreases m.len(),
{
    if m.len() > 0 {
        lemma_meta_enc_agree(m.drop_last());
        lemma_meta_enc_shift(m, 0);
    }
}

/// Unrolling `meta_enc_from` from the left matches dropping the last pair.
pub proof fn lemma_meta_enc_shift(m: Seq<(Seq<char>, Seq<char>)>, j: int)
    requires
        m.len() >= 1,
        0 <= j <= m.len(),
    ensures
        meta_enc_from(m, j) == meta_enc_from(m.drop_last(), j) + if j < m.len() {
            str_enc(m.last().0) + str_enc(m.last().1)
        } else {
            Seq::<u8>::empty()
        },
    decreases m.len() - j,
{
    if j < m.len() {
        lemma_meta_enc_shift(m, j + 1);
        if j < m.len() - 1 {
            assert(m.drop_last()[j] == m[j]);
            assert(meta_enc_from(m, j) =~= meta_enc_from(m.drop_last(), j) + (str_enc(m.last().0)
                + str_enc(m.last().1)));
        } else {
            assert(meta_enc_from(m.drop_last(), j) =~= Seq::<u8>::empty());
            assert(meta_enc_from(m, j) =~= meta_enc_from(m.drop_last(), j) + (str_enc(m.last().0)
                + str_enc(m.last().1)));
        }
    } else {
        assert(meta_enc_from(m, j) =~= meta_enc_from(m.drop_last(), j));
    }
}

/// Read a length-prefixed UTF-8 string at `off`.  Whenever the bytes from
/// `off` really are an encoded string of fewer than `2^64` bytes followed by
/// anything, the read succeeds, yields that string, and stops exactly at it.
fn read_str(b: &Vec<u8>, off: usize) -> (r: Option<(String, usize)>)
    requires
        off <= b@.len(),
    ensures
        r.is_some() ==> off < r.unwrap().1 <= b@.len(),
        forall|s: Seq<char>, rest: Seq<u8>|
            (b@.skip(off as int) == #[trigger] (str_enc(s) + rest) && vstd::utf8::encode_utf8(
                s,
            ).len() < 18_446_744_073_709_551_616) ==> r.is_some() && r.unwrap().0@ == s
                && b@.skip(r.unwrap().1 as int) == rest,
{
    let n = b.len();
    if n - off < 8 {
        proof {
            assert forall|s: Seq<char>, rest: Seq<u8>|
                (b@.skip(off as int) == #[trigger] (str_enc(s) + rest)
                    && vstd::utf8::encode_utf8(s).len() < 18_446_744_073_709_551_616) implies
                false by {
                assert(b@.skip(off as int).len() >= 8);
            }
        }
        return None;
    }
    let len64 = read_u64(b, off);
    if (len64 as u128) > ((n - off - 8) as u128) {
        proof {
            assert forall|s: Seq<char>, rest: Seq<u8>|
                (b@.skip(off as int) == #[trigger] (str_enc(s) + rest)
                    && vstd::utf8::encode_utf8(s).len() < 18_446_744_073_709_551_616) implies
                false by {
                let eb = vstd::utf8::encode_utf8(s);
                assert(b@.subrange(off as int, off as int + 8) =~= u64_bytes(eb.len() as u64));
                lemma_u64_roundtrip(eb.len() as u64);
                assert(b@.skip(off as int).len() == 8 + eb.len() + rest.len());
            }
        }
        return None;
    }
    let slen = len64 as usize;
    let start = off + 8;
    let mut sb: Vec<u8> = Vec::new();
    let mut i: usize = 0;
    while i < slen
        invariant
            i <= slen,
            n == b@.len(),
            start + slen <= n,
            sb@ =~= b@.subrange(start as int, start as int + i as int),
        decreases slen - i,
    {
        sb.push(b[start + i]);
        proof {
            assert(sb@ =~= b@.subrange(start as int, start as int + i as int + 1));
        }
        i = i + 1;
    }
    let new_off = start + slen;
    let ghost sbv = sb@;
    match string_from_utf8(sb) {
        Some(s) => {
            proof {
                assert forall|s0: Seq<char>, rest: Seq<u8>|
                    (b@.skip(off as int) == #[trigger] (str_enc(s0) + rest)
                        && vstd::utf8::encode_utf8(s0).len() < 18_446_744_073_709_551_616)
                    implies s@ == s0 && b@.skip(new_off as int) == rest by {
                    let eb = vstd::utf8::encode_utf8(s0);
                    assert(b@.subrange(off as int, off as int + 8) =~= u64_bytes(
                        eb.len() as u64,
                    ));
                    lemma_u64_roundtrip(eb.len() as u64);
                    assert(slen == eb.len());
                    assert(sbv =~= b@.skip(off as int).subrange(8, 8 + slen as int));
                    assert((str_enc(s0) + rest).subrange(8, 8 + slen as int) =~= eb);
                    assert(sbv =~= eb);
                    vstd::utf8::encode_utf8_decode_utf8(s@);
                    vstd::utf8::encode_utf8_decode_utf8(s0);
                    assert(s@ == s0);
                    assert(b@.skip(new_off as int) =~= b@.skip(off as int).skip(
                        8 + slen as int,
                    ));
                    assert((str_enc(s0) + rest).skip(8 + slen as int) =~= rest);
                    assert(b@.skip(new_off as int) =~= rest);
                }
            }
            Some((s, new_off))
        },
        None => {
            proof {
                assert forall|s0: Seq<char>, rest: Seq<u8>|
                    (b@.skip(off as int) == #[trigger] (str_enc(s0) + rest)
                        && vstd::utf8::encode_utf8(s0).len() < 18_446_744_073_709_551_616)
                    implies false by {
                    let eb = vstd::utf8::encode_utf8(s0);
                    assert(b@.subrange(off as int, off as int + 8) =~= u64_bytes(
                        eb.len() as u64,
                    ));
                    lemma_u64_roundtrip(eb.len() as u64);
                    assert(slen == eb.len());
                    assert(sbv =~= b@.skip(off as int).subrange(8, 8 + slen as int));
                    assert((str_enc(s0) + rest).subrange(8, 8 + slen as int) =~= eb);
                    assert(sbv =~= eb);
                    vstd::utf8::encode_utf8_valid_utf8(s0);
                }
            }
            None
        },
    }
}

/// A signed value survives the unsigned cast round trip.
pub proof fn lemma_i64_cast(x: i64)
    ensures
        ((x as u64) as i64) == x,
{
    assert(((x as u64) as i64) == x) by (bit_vector);
}

/// Whether every variable-length part of a concept is below `2^64` bytes.
/// Every concept held in memory satisfies this.
pub open spec fn concept_sized(c: Concept) -> bool {
    &&& vstd::utf8::encode_utf8(c.content@).len() < 18_446_744_073_709_551_616
    &&& c.metadata.deep_view().len() < 18_446_744_073_709_551_616
    &&& forall|k: int|
        0 <= k < c.metadata.deep_view().len() ==> vstd::utf8::encode_utf8(
            (#[trigger] c.metadata.deep_view()[k]).0,
        ).len() < 18_446_744_073_709_551_616 && vstd::utf8::encode_utf8(
            c.metadata.deep_view()[k].1,
        ).len() < 18_446_744_073_709_551_616
}

/// Split the encoding of a concept at its fixed-width header.
pub proof fn lemma_concept_enc_split(b: Seq<u8>, c0: Concept)
    requires
        b == concept_enc(c0),
    ensures
        b.len() >= 56,
        b.subrange(0, 16) == u128_bytes(c0.id.0),
        b.subrange(16, 24) == u64_bytes(c0.created_at as u64),
        b.subrange(24, 32) == u64_bytes(c0.last_accessed as u64),
        b.subrange(32, 40) == u64_bytes(c0.access_count),
        b.skip(40) == str_enc(c0.content@) + (u64_bytes(c0.metadata.deep_view().len() as u64)
            + meta_enc(c0.metadata.deep_view())),
{
    assert(b.subrange(0, 16) =~= u128_bytes(c0.id.0));
    assert(b.subrange(16, 24) =~= u64_bytes(c0.created_at as u64));
    assert(b.subrange(24, 32) =~= u64_bytes(c0.last_accessed as u64));
    assert(b.subrange(32, 40) =~= u64_bytes(c0.access_count));
    assert(b.skip(40) =~= str_enc(c0.content@) + (u64_bytes(
        c0.metadata.deep_view().len() as u64,
    ) + meta_enc(c0.metadata.deep_view())));
}

/// Split a metadata block at its count prefix.
pub proof fn lemma_meta_block_split(b: Seq<u8>, meta: Seq<(Seq<char>, Seq<char>)>, off1: int)
    requires
        0 <= off1,
        off1 + 8 <= b.len(),
        b.skip(off1) == u64_bytes(meta.len() as u64) + meta_enc(meta),
    ensures
        b.subrange(off1, off1 + 8) == u64_bytes(meta.len() as u64),
        b.skip(off1 + 8) == meta_enc_from(meta, 0),
{
    assert(b.subrange(off1, off1 + 8) =~= b.skip(off1).subrange(0, 8));
    assert(b.skip(off1).subrange(0, 8) =~= u64_bytes(meta.len() as u64));
    lemma_meta_enc_agree(meta);
    assert(b.skip(off1 + 8) =~= b.skip(off1).skip(8));
    assert(b.skip(off1).skip(8) =~= meta_enc(meta));
}

/// Unfold one metadata pair from the left.
pub proof fn lemma_meta_from_unfold(meta: Seq<(Seq<char>, Seq<char>)>, j: int)
    requires
        0 <= j < meta.len(),
    ensures
        meta_enc_from(meta, j) == str_enc(meta[j].0) + (str_enc(meta[j].1) + meta_enc_from(
            meta,
            j + 1,
        )),
{
    assert(meta_enc_from(meta, j) =~= str_enc(meta[j].0) + (str_enc(meta[j].1) + meta_enc_from(
        meta,
        j + 1,
    )));
}

/// Decode a concept.  Whenever the bytes are the encoding of a concept, the
/// decode succeeds and returns it.
#[verifier::rlimit(100)]
#[verifier::spinoff_prover]
pub fn decode_concept(b: &Vec<u8>) -> (r: Option<Concept>)
    ensures
        forall|c0: Concept|
            (b@ == #[trigger] concept_enc(c0) && concept_sized(c0)) ==> r.is_some() && concept_eq(
                r.unwrap(),
                c0,
            ),
{
    let n = b.len();
    if n < 48 {
        proof {
            assert forall|c0: Concept|
                (b@ == #[trigger] concept_enc(c0) && concept_sized(c0)) implies false by {
                lemma_concept_enc_split(b@, c0);
            }
        }
        return None;
    }
    let id = read_u128(b, 0);
    let created = read_u64(b, 16);
    let last = read_u64(b, 24);
    let acc = read_u64(b, 32);
    let content_r = read_str(b, 40);
    proof {
        assert forall|c0: Concept|
            (b@ == #[trigger] concept_enc(c0) && concept_sized(c0)) implies b@.skip(40)
            == str_enc(c0.content@) + (u64_bytes(c0.metadata.deep_view().len() as u64) + meta_enc(
            c0.metadata.deep_view(),
        )) by {
            lemma_concept_enc_split(b@, c0);
        }
    }
    let (content, off1) = match content_r {
        Some(p) => p,
        None => {
            return None;
        },
    };
    if n - off1 < 8 {
        proof {
            assert forall|c0: Concept|
                (b@ == #[trigger] concept_enc(c0) && concept_sized(c0)) implies false by {
                assert(b@.skip(off1 as int).len() >= 8);
            }
        }
        return None;
    }
    let mcount = read_u64(b, off1);
    let mut off = off1 + 8;
    proof {
        assert forall|c0: Concept|
            (b@ == #[trigger] concept_enc(c0) && concept_sized(c0)) implies mcount
            == c0.metadata.deep_view().len() && b@.skip(off as int) == meta_enc_from(
            c0.metadata.deep_view(),
            0,
        ) by {
            let meta = c0.metadata.deep_view();
            lemma_meta_block_split(b@, meta, off1 as int);
            lemma_u64_roundtrip(meta.len() as u64);
        }
    }
    let mut pairs: Vec<(String, String)> = Vec::new();
    let mut j: u64 = 0;
    while j < mcount
        invariant
            j <= mcount,
            off <= b@.len(),
            n == b@.len(),
            pairs@.len() == j,
            forall|c0: Concept|
                (b@ == #[trigger] concept_enc(c0) && concept_sized(c0)) ==> {
                    &&& mcount == c0.metadata.deep_view().len()
                    &&& pairs.deep_view() == c0.metadata.deep_view().take(j as int)
                    &&& b@.skip(off as int) == meta_enc_from(c0.metadata.deep_view(), j as int)
                },
        decreases mcount - j,
    {
        proof {
            assert forall|c0: Concept|
                (b@ == #[trigger] concept_enc(c0) && concept_sized(c0)) implies b@.skip(
                off as int,
            ) == str_enc(c0.metadata.deep_view()[j as int].0) + (str_enc(
                c0.metadata.deep_view()[j as int].1,
            ) + meta_enc_from(c0.metadata.deep_view(), j as int + 1)) by {
                lemma_meta_from_unfold(c0.metadata.deep_view(), j as int);
            }
        }
        let kr = match read_str(b, off) {
            Some(p) => p,
            None => {
                return None;
            },
        };
        proof {
            assert forall|c0: Concept|
                (b@ == #[trigger] concept_enc(c0) && concept_sized(c0)) implies b@.skip(
                kr.1 as int,
            ) == str_enc(c0.metadata.deep_view()[j as int].1) + meta_enc_from(
                c0.metadata.deep_view(),
                j as int + 1,
            ) by {}
        }
        let vr = match read_str(b, kr.1) {
            Some(p) => p,
            None => {
                return None;
            },
        };
        let ghost pairs0 = pairs.deep_view();
        let key_str = kr.0;
        let val = vr.0;
        pairs.push((key_str, val));
        off = vr.1;
        proof {
            assert forall|c0: Concept|
                (b@ == #[trigger] concept_enc(c0) && concept_sized(c0)) implies pairs.deep_view()
                == c0.metadata.deep_view().take(j as int + 1) by {
                assert(pairs.deep_view() =~~= pairs0.push(
                    (c0.metadata.deep_view()[j as int].0, c0.metadata.deep_view()[j as int].1),
                ));
                assert(c0.metadata.deep_view().take(j as int + 1) =~~= c0.metadata.deep_view().take(
                    j as int,
                ).push(c0.metadata.deep_view()[j as int]));
            }
        }
        j = j + 1;
    }
    if off != n {
        proof {
            assert forall|c0: Concept|
                (b@ == #[trigger] concept_enc(c0) && concept_sized(c0)) implies false by {
                assert(meta_enc_from(c0.metadata.deep_view(), mcount as int)
                    =~= Seq::<u8>::empty());
                assert(b@.skip(off as int).len() == 0);
            }
        }
        return None;
    }
    let result = Concept {
        id: ConceptId(id),
        content,
        metadata: pairs,
        created_at: created as i64,
        last_accessed: last as i64,
        access_count: acc,
    };
    proof {
        assert forall|c0: Concept|
            (b@ == #[trigger] concept_enc(c0) && concept_sized(c0)) implies concept_eq(
            result,
            c0,
        ) by {
            lemma_concept_enc_split(b@, c0);
            lemma_u128_roundtrip(c0.id.0);
            lemma_u64_roundtrip(c0.created_at as u64);
            lemma_u64_roundtrip(c0.last_accessed as u64);
            lemma_u64_roundtrip(c0.access_count);
            lemma_i64_cast(c0.created_at);
            lemma_i64_cast(c0.last_accessed);
            assert(c0.metadata.deep_view().take(mcount as int) =~= c0.metadata.deep_view());
        }
    }
    Some(result)
}

/// Decode a synaptic edge.  Whenever the bytes are the encoding of an edge,
/// the decode succeeds and returns it.
pub fn decode_edge(b: &Vec<u8>) -> (r: Option<SynapticEdge>)
    ensures
        forall|e0: SynapticEdge|
            b@ == #[trigger] edge_enc(e0) ==> r == Some(e0),
{
    let n = b.len();
    if n != 64 {
        proof {
            assert forall|e0: SynapticEdge| b@ == #[trigger] edge_enc(e0) implies false by {
                assert(b@.len() == 64);
            }
        }
        return None;
    }
    let from = read_u128(b, 0);
    let to = read_u128(b, 16);
    let w = read_u64(b, 32);
    let created = read_u64(b, 40);
    let last = read_u64(b, 48);
    let count = read_u64(b, 56);
    let result = SynapticEdge {
        from: ConceptId(from),
        to: ConceptId(to),
        weight: SynapticWeight(w),
        created_at: created as i64,
        last_accessed: last as i64,
        activation_count: count,
    };
    proof {
        assert forall|e0: SynapticEdge| b@ == #[trigger] edge_enc(e0) implies result == e0 by {
            assert(b@.subrange(0, 16) =~= u128_bytes(e0.from.0));
            assert(b@.subrange(16, 32) =~= u128_bytes(e0.to.0));
            assert(b@.subrange(32, 40) =~= u64_bytes(e0.weight.0));
            assert(b@.subrange(40, 48) =~= u64_bytes(e0.created_at as u64));
            assert(b@.subrange(48, 56) =~= u64_bytes(e0.last_accessed as u64));
            assert(b@.subrange(56, 64) =~= u64_bytes(e0.activation_count));
            lemma_u128_roundtrip(e0.from.0);
            lemma_u128_roundtrip(e0.to.0);
            lemma_u64_roundtrip(e0.weight.0);
            lemma_u64_roundtrip(e0.created_at as u64);
            lemma_u64_roundtrip(e0.last_accessed as u64);
            lemma_u64_roundtrip(e0.activation_count);
            lemma_i64_cast(e0.created_at);
            lemma_i64_cast(e0.last_accessed);
        }
    }
    Some(result)
}

/// Decode a working-memory entry.
pub fn decode_working(b: &Vec<u8>) -> (r: Option<(ConceptId, i64)>)
    ensures
        forall|id: ConceptId, at: i64|
            b@ == #[trigger] working_enc(id, at) ==> r == Some((id, at)),
{
    let n = b.len();
    if n != 24 {
        proof {
            assert forall|id: ConceptId, at: i64| b@ == #[trigger] working_enc(id, at) implies
                false by {
                assert(b@.len() == 24);
            }
        }
        return None;
    }
    let id = read_u128(b, 0);
    let at = read_u64(b, 16);
    proof {
        assert forall|id0: ConceptId, at0: i64| b@ == #[trigger] working_enc(id0, at0) implies (
        ConceptId(id), at as i64) == (id0, at0) by {
            assert(b@.subrange(0, 16) =~= u128_bytes(id0.0));
            assert(b@.subrange(16, 24) =~= u64_bytes(at0 as u64));
            lemma_u128_roundtrip(id0.0);
            lemma_u64_roundtrip(at0 as u64);
            lemma_i64_cast(at0);
        }
    }
    Some((ConceptId(id), at as i64))
}

/// Decode the engine configuration.  Sizes beyond the machine's word are
/// clamped by the cast; every configuration written on the same machine
/// round-trips.
pub fn decode_config(b: &Vec<u8>) -> (r: Option<MemoryConfig>)
    ensures
        forall|c0: MemoryConfig|
            b@ == #[trigger] config_enc(c0) ==> r.is_some() && r.unwrap().learning_rate
                == c0.learning_rate && r.unwrap().decay_rate == c0.decay_rate
                && r.unwrap().consolidation_threshold == c0.consolidation_threshold
                && r.unwrap().consolidation_interval_hours == c0.consolidation_interval_hours
                && r.unwrap().max_short_term_connections == c0.max_short_term_connections
                && r.unwrap().max_recall_results == c0.max_recall_results,
{
    let n = b.len();
    if n != 48 {
        proof {
            assert forall|c0: MemoryConfig| b@ == #[trigger] config_enc(c0) implies false by {
                assert(b@.len() == 48);
            }
        }
        return None;
    }
    let learning = read_u64(b, 0);
    let decay = read_u64(b, 8);
    let threshold = read_u64(b, 16);
    let max_st = read_u64(b, 24);
    let interval = read_u64(b, 32);
    let max_recall = read_u64(b, 40);
    let result = MemoryConfig {
        learning_rate: learning,
        decay_rate: decay,
        consolidation_threshold: threshold,
        max_short_term_connections: max_st as usize,
        consolidation_interval_hours: interval,
        max_recall_results: max_recall as usize,
    };
    proof {
        assert forall|c0: MemoryConfig| b@ == #[trigger] config_enc(c0) implies
            result.learning_rate == c0.learning_rate && result.decay_rate == c0.decay_rate
            && result.consolidation_threshold == c0.consolidation_threshold
            && result.consolidation_interval_hours == c0.consolidation_interval_hours
            && result.max_short_term_connections == c0.max_short_term_connections
            && result.max_recall_results == c0.max_recall_results by {
            assert(b@.subrange(0, 8) =~= u64_bytes(c0.learning_rate));
            assert(b@.subrange(8, 16) =~= u64_bytes(c0.decay_rate));
            assert(b@.subrange(16, 24) =~= u64_bytes(c0.consolidation_threshold));
            assert(b@.subrange(24, 32) =~= u64_bytes(c0.max_short_term_connections as u64));
            assert(b@.subrange(32, 40) =~= u64_bytes(c0.consolidation_interval_hours));
            assert(b@.subrange(40, 48) =~= u64_bytes(c0.max_recall_results as u64));
            lemma_u64_roundtrip(c0.learning_rate);
            lemma_u64_roundtrip(c0.decay_rate);
            lemma_u64_roundtrip(c0.consolidation_threshold);
            lemma_u64_roundtrip(c0.max_short_term_connections as u64);
            lemma_u64_roundtrip(c0.consolidation_interval_hours);
            lemma_u64_roundtrip(c0.max_recall_results as u64);
        }
    }
    Some(result)
}

/// The ASCII bytes of the key prefixes.
pub open spec fn concept_prefix() -> Seq<u8> {
    seq![99u8, 111u8, 110u8, 99u8, 101u8, 112u8, 116u8, 58u8]
}

pub open spec fn st_edge_prefix() -> Seq<u8> {
    seq![115u8, 116u8, 95u8, 101u8, 100u8, 103u8, 101u8, 58u8]
}

pub open spec fn lt_edge_prefix() -> Seq<u8> {
    seq![108u8, 116u8, 95u8, 101u8, 100u8, 103u8, 101u8, 58u8]
}

pub open spec fn working_prefix() -> Seq<u8> {
    seq![119u8, 111u8, 114u8, 107u8, 105u8, 110u8, 103u8, 58u8]
}

pub open spec fn config_key() -> Seq<u8> {
    seq![99u8, 111u8, 110u8, 102u8, 105u8, 103u8]
}

/// The lower-case hexadecimal digit of a nibble.
pub open spec fn hex_digit(d: u8) -> u8 {
    if d < 10 {
        (48 + d) as u8
    } else {
        (87 + d) as u8
    }
}

/// The canonical 36-character textual form of a 128-bit identifier:
/// thirty-two lower-case hexadecimal digits with dashes after the eighth,
/// twelfth, sixteenth and twentieth.
pub open spec fn uuid_text(x: u128) -> Seq<u8> {
    Seq::new(
        36,
        |i: int|
            if i == 8 || i == 13 || i == 18 || i == 23 {
                45u8
            } else {
                let q = if i < 8 {
                    i
                } else if i < 13 {
                    i - 1
                } else if i < 18 {
                    i - 2
                } else if i < 23 {
                    i - 3
                } else {
                    i - 4
                };
                hex_digit(((x >> (((31 - q) * 4) as u128)) & 0xf) as u8)
            },
    )
}

/// Render the canonical textual form of an identifier.
pub fn uuid_text_exec(x: u128) -> (r: Vec<u8>)
    ensures
        r@ == uuid_text(x),
{
    let mut out: Vec<u8> = Vec::new();
    let mut i: usize = 0;
    while i < 36
        invariant
            i <= 36,
            out@ =~= uuid_text(x).take(i as int),
        decreases 36 - i,
    {
        if i == 8 || i == 13 || i == 18 || i == 23 {
            out.push(45);
        } else {
            let q: usize = if i < 8 {
                i
            } else if i < 13 {
                i - 1
            } else if i < 18 {
                i - 2
            } else if i < 23 {
                i - 3
            } else {
                i - 4
            };
            proof {
                assert(q <= 31);
            }
            let shift: usize = (31 - q) * 4;
            proof {
                assert(shift <= 124);
            }
            let wide: u128 = (x >> (shift as u128)) & 0xf;
            proof {
                assert((x >> (shift as u128)) & 0xf < 16) by (bit_vector);
            }
            let nib: u8 = wide as u8;
            let c: u8 = if nib < 10 {
                48 + nib
            } else {
                87 + nib
            };
            out.push(c);
        }
        proof {
            assert(out@ =~= uuid_text(x).take(i as int + 1));
        }
        i = i + 1;
    }
    proof {
        assert(uuid_text(x).take(36) =~= uuid_text(x));
    }
    out
}

/// The typed keys of the store.
pub open spec fn concept_key(id: u128) -> Seq<u8> {
    concept_prefix() + u128_bytes(id)
}

pub open spec fn edge_key(long_term: bool, from: u128, to: u128) -> Seq<u8> {
    (if long_term {
        lt_edge_prefix()
    } else {
        st_edge_prefix()
    }) + u128_bytes(from) + seq![58u8] + u128_bytes(to)
}

pub open spec fn working_key(id: u128) -> Seq<u8> {
    working_prefix() + uuid_text(id)
}

/// Build a concept key.
pub fn concept_key_exec(id: u128) -> (r: Vec<u8>)
    ensures
        r@ == concept_key(id),
{
    let mut out: Vec<u8> = Vec::new();
    out.push(99);
    out.push(111);
    out.push(110);
    out.push(99);
    out.push(101);
    out.push(112);
    out.push(116);
    out.push(58);
    proof {
        assert(out@ =~= concept_prefix());
    }
    push_u128(&mut out, id);
    proof {
        assert(out@ =~= concept_key(id));
    }
    out
}

/// Build a zone-tagged edge key.
pub fn edge_key_exec(long_term: bool, from: u128, to: u128) -> (r: Vec<u8>)
    ensures
        r@ == edge_key(long_term, from, to),
{
    let mut out: Vec<u8> = Vec::new();
    if long_term {
        out.push(108);
        out.push(116);
    } else {
        out.push(115);
        out.push(116);
    }
    out.push(95);
    out.push(101);
    out.push(100);
    out.push(103);
    out.push(101);
    out.push(58);
    proof {
        if long_term {
            assert(out@ =~= lt_edge_prefix());
        } else {
            assert(out@ =~= st_edge_prefix());
        }
    }
    push_u128(&mut out, from);
    out.push(58);
    push_u128(&mut out, to);
    proof {
        assert(out@ =~= edge_key(long_term, from, to));
    }
    out
}

/// Build a working-memory key.
pub fn working_key_exec(id: u128) -> (r: Vec<u8>)
    ensures
        r@ == working_key(id),
{
    let mut out: Vec<u8> = Vec::new();
    out.push(119);
    out.push(111);
    out.push(114);
    out.push(107);
    out.push(105);
    out.push(110);
    out.push(103);
    out.push(58);
    proof {
        assert(out@ =~= working_prefix());
    }
    let mut text = uuid_text_exec(id);
    out.append(&mut text);
    proof {
        assert(out@ =~= working_key(id));
    }
    out
}

/// Build the configuration key.
pub fn config_key_exec() -> (r: Vec<u8>)
    ensures
        r@ == config_key(),
{
    let mut out: Vec<u8> = Vec::new();
    out.push(99);
    out.push(111);
    out.push(110);
    out.push(102);
    out.push(105);
    out.push(103);
    proof {
        assert(out@ =~= config_key());
    }
    out
}

/// Whether a key/value list is the snapshot of a graph: every concept, the
/// short-term edges, the long-term edges, working memory, and finally the
/// configuration, each under its typed key.
pub open spec fn is_snapshot_of(entries: Seq<(Vec<u8>, Vec<u8>)>, g: MemoryGraph) -> bool {
    let nc = g.concepts@.len() as int;
    let ns = g.short_term_edges@.len() as int;
    let nl = g.long_term_edges@.len() as int;
    let nw = g.working_memory@.len() as int;
    &&& entries.len() == nc + ns + nl + nw + 1
    &&& forall|i: int|
        0 <= i < nc ==> (#[trigger] entries[i]).0@ == concept_key(g.concepts@[i].id.0)
            && entries[i].1@ == concept_enc(g.concepts@[i])
    &&& forall|i: int|
        nc <= i < nc + ns ==> (#[trigger] entries[i]).0@ == edge_key(
            false,
            g.short_term_edges@[i - nc].from.0,
            g.short_term_edges@[i - nc].to.0,
        ) && entries[i].1@ == edge_enc(g.short_term_edges@[i - nc])
    &&& forall|i: int|
        nc + ns <= i < nc + ns + nl ==> (#[trigger] entries[i]).0@ == edge_key(
            true,
            g.long_term_edges@[i - nc - ns].from.0,
            g.long_term_edges@[i - nc - ns].to.0,
        ) && entries[i].1@ == edge_enc(g.long_term_edges@[i - nc - ns])
    &&& forall|i: int|
        nc + ns + nl <= i < nc + ns + nl + nw ==> (#[trigger] entries[i]).0@ == working_key(
            g.working_memory@[i - nc - ns - nl].0.0,
        ) && entries[i].1@ == working_enc(
            g.working_memory@[i - nc - ns - nl].0,
            g.working_memory@[i - nc - ns - nl].1,
        )
    &&& entries[nc + ns + nl + nw].0@ == config_key()
    &&& entries[nc + ns + nl + nw].1@ == config_enc(g.config)
}

/// Produce the full snapshot of a graph as key/value pairs.
pub fn snapshot_entries(g: &MemoryGraph) -> (r: Vec<(Vec<u8>, Vec<u8>)>)
    ensures
        is_snapshot_of(r@, *g),
        snapshot_sized(*g),
{
    let mut out: Vec<(Vec<u8>, Vec<u8>)> = Vec::new();
    let mut i: usize = 0;
    while i < g.concepts.len()
        invariant
            i <= g.concepts@.len(),
            out@.len() == i,
            forall|k: int|
                0 <= k < i ==> (#[trigger] out@[k]).0@ == concept_key(g.concepts@[k].id.0)
                    && out@[k].1@ == concept_enc(g.concepts@[k]),
            forall|k: int| 0 <= k < i ==> concept_sized(#[trigger] g.concepts@[k]),
        decreases g.concepts@.len() - i,
    {
        let key = concept_key_exec(g.concepts[i].id.0);
        let val = encode_concept(&g.concepts[i]);
        out.push((key, val));
        i = i + 1;
    }
    let ghost nc = g.concepts@.len() as int;
    let mut j: usize = 0;
    while j < g.short_term_edges.len()
        invariant
            j <= g.short_term_edges@.len(),
            nc == g.concepts@.len() as int,
            snapshot_sized(*g),
            out@.len() == nc + j,
            forall|k: int|
                0 <= k < nc ==> (#[trigger] out@[k]).0@ == concept_key(g.concepts@[k].id.0)
                    && out@[k].1@ == concept_enc(g.concepts@[k]),
            forall|k: int|
                nc <= k < nc + j ==> (#[trigger] out@[k]).0@ == edge_key(
                    false,
                    g.short_term_edges@[k - nc].from.0,
                    g.short_term_edges@[k - nc].to.0,
                ) && out@[k].1@ == edge_enc(g.short_term_edges@[k - nc]),
        decreases g.short_term_edges@.len() - j,
    {
        let e = g.short_term_edges[j];
        let key = edge_key_exec(false, e.from.0, e.to.0);
        let val = encode_edge(&e);
        out.push((key, val));
        j = j + 1;
    }
    let ghost ns = g.short_term_edges@.len() as int;
    let mut m: usize = 0;
    while m < g.long_term_edges.len()
        invariant
            m <= g.long_term_edges@.len(),
            nc == g.concepts@.len() as int,
            ns == g.short_term_edges@.len() as int,
            snapshot_sized(*g),
            out@.len() == nc + ns + m,
            forall|k: int|
                0 <= k < nc ==> (#[trigger] out@[k]).0@ == concept_key(g.concepts@[k].id.0)
                    && out@[k].1@ == concept_enc(g.concepts@[k]),
            forall|k: int|
                nc <= k < nc + ns ==> (#[trigger] out@[k]).0@ == edge_key(
                    false,
                    g.short_term_edges@[k - nc].from.0,
                    g.short_term_edges@[k - nc].to.0,
                ) && out@[k].1@ == edge_enc(g.short_term_edges@[k - nc]),
            forall|k: int|
                nc + ns <= k < nc + ns + m ==> (#[trigger] out@[k]).0@ == edge_key(
                    true,
                    g.long_term_edges@[k - nc - ns].from.0,
                    g.long_term_edges@[k - nc - ns].to.0,
                ) && out@[k].1@ == edge_enc(g.long_term_edges@[k - nc - ns]),
        decreases g.long_term_edges@.len() - m,
    {
        let e = g.long_term_edges[m];
        let key = edge_key_exec(true, e.from.0, e.to.0);
        let val = encode_edge(&e);
        out.push((key, val));
        m = m + 1;
    }
    let ghost nl = g.long_term_edges@.len() as int;
    let mut w: usize = 0;
    while w < g.working_memory.len()
        invariant
            w <= g.working_memory@.len(),
            nc == g.concepts@.len() as int,
            ns == g.short_term_edges@.len() as int,
            nl == g.long_term_edges@.len() as int,
            snapshot_sized(*g),
            out@.len() == nc + ns + nl + w,
            forall|k: int|
                0 <= k < nc ==> (#[trigger] out@[k]).0@ == concept_key(g.concepts@[k].id.0)
                    && out@[k].1@ == concept_enc(g.concepts@[k]),
            forall|k: int|
                nc <= k < nc + ns ==> (#[trigger] out@[k]).0@ == edge_key(
                    false,
                    g.short_term_edges@[k - nc].from.0,
                    g.short_term_edges@[k - nc].to.0,
                ) && out@[k].1@ == edge_enc(g.short_term_edges@[k - nc]),
            forall|k: int|
                nc + ns <= k < nc + ns + nl ==> (#[trigger] out@[k]).0@ == edge_key(
                    true,
                    g.long_term_edges@[k - nc - ns].from.0,
                    g.long_term_edges@[k - nc - ns].to.0,
                ) && out@[k].1@ == edge_enc(g.long_term_edges@[k - nc - ns]),
            forall|k: int|
                nc + ns + nl <= k < nc + ns + nl + w ==> (#[trigger] out@[k]).0@ == working_key(
                    g.working_memory@[k - nc - ns - nl].0.0,
                ) && out@[k].1@ == working_enc(
                    g.working_memory@[k - nc - ns - nl].0,
                    g.working_memory@[k - nc - ns - nl].1,
                ),
        decreases g.working_memory@.len() - w,
    {
        let p = g.working_memory[w];
        let key = working_key_exec(p.0.0);
        let val = encode_working(p.0, p.1);
        out.push((key, val));
        w = w + 1;
    }
    let ckey = config_key_exec();
    let cval = encode_config(&g.config);
    out.push((ckey, cval));
    out
}

/// How much of the range `[lo, hi)` a scan position `i` has covered.
pub open spec fn covered(i: int, lo: int, hi: int) -> int {
    if i <= lo {
        0
    } else if i >= hi {
        hi - lo
    } else {
        i - lo
    }
}

/// Every concept of the graph has variable-length parts below `2^64` bytes.
pub open spec fn snapshot_sized(g: MemoryGraph) -> bool {
    forall|i: int| 0 <= i < g.concepts@.len() ==> concept_sized(#[trigger] g.concepts@[i])
}

/// Classify a key by its prefix: `0` concept, `1` short-term edge, `2`
/// long-term edge, `3` working memory, `5` configuration, `255` unknown.
pub fn key_kind(k: &Vec<u8>) -> (r: u8)
    ensures
        (r == 0) == (k@.len() >= 8 && k@.subrange(0, 8) == concept_prefix()),
        (r == 1) == (k@.len() >= 8 && k@.subrange(0, 8) == st_edge_prefix()),
        (r == 2) == (k@.len() >= 8 && k@.subrange(0, 8) == lt_edge_prefix()),
        (r == 3) == (k@.len() >= 8 && k@.subrange(0, 8) == working_prefix()),
        (r == 5) == (k@ == config_key()),
{
    let n = k.len();
    if n == 6 {
        if k[0] == 99 && k[1] == 111 && k[2] == 110 && k[3] == 102 && k[4] == 105 && k[5] == 103 {
            proof {
                assert(k@ =~= config_key());
            }
            return 5;
        }
        proof {
            if k@ == config_key() {
                assert(k@[0] == 99 && k@[1] == 111 && k@[2] == 110 && k@[3] == 102 && k@[4] == 105
                    && k@[5] == 103);
            }
        }
        return 255;
    }
    proof {
        if k@ == config_key() {
            assert(k@.len() == 6);
        }
    }
    if n < 8 {
        return 255;
    }
    let p0 = k[0];
    let p1 = k[1];
    let p2 = k[2];
    let p3 = k[3];
    let p4 = k[4];
    let p5 = k[5];
    let p6 = k[6];
    let p7 = k[7];
    let ghost pre = k@.subrange(0, 8);
    proof {
        assert(pre[0] == k@[0] && pre[1] == k@[1] && pre[2] == k@[2] && pre[3] == k@[3] && pre[4]
            == k@[4] && pre[5] == k@[5] && pre[6] == k@[6] && pre[7] == k@[7]);
    }
    if p0 == 99 && p1 == 111 && p2 == 110 && p3 == 99 && p4 == 101 && p5 == 112 && p6 == 116 && p7
        == 58 {
        proof {
            assert(pre =~= concept_prefix());
        }
        return 0;
    }
    if p0 == 115 && p1 == 116 && p2 == 95 && p3 == 101 && p4 == 100 && p5 == 103 && p6 == 101 && p7
        == 58 {
        proof {
            assert(pre =~= st_edge_prefix());
        }
        return 1;
    }
    if p0 == 108 && p1 == 116 && p2 == 95 && p3 == 101 && p4 == 100 && p5 == 103 && p6 == 101 && p7
        == 58 {
        proof {
            assert(pre =~= lt_edge_prefix());
        }
        return 2;
    }
    if p0 == 119 && p1 == 111 && p2 == 114 && p3 == 107 && p4 == 105 && p5 == 110 && p6 == 103
        && p7 == 58 {
        proof {
            assert(pre =~= working_prefix());
        }
        return 3;
    }
    proof {
        if pre == concept_prefix() {
            assert(pre[0] == 99 && pre[3] == 99);
        }
        if pre == st_edge_prefix() {
            assert(pre[0] == 115);
        }
        if pre == lt_edge_prefix() {
            assert(pre[0] == 108);
        }
        if pre == working_prefix() {
            assert(pre[0] == 119);
        }
    }
    255
}

/// The key prefixes of the five entry classes are pairwise distinct.
pub proof fn lemma_prefixes_distinct()
    ensures
        concept_prefix() != st_edge_prefix(),
        concept_prefix() != lt_edge_prefix(),
        concept_prefix() != working_prefix(),
        st_edge_prefix() != lt_edge_prefix(),
        st_edge_prefix() != working_prefix(),
        lt_edge_prefix() != working_prefix(),
{
    assert(concept_prefix()[0] == 99 && st_edge_prefix()[0] == 115 && lt_edge_prefix()[0] == 108
        && working_prefix()[0] == 119);
}

/// In a snapshot, the position of an entry determines its key prefix.
pub proof fn lemma_snapshot_entry_kind(
    entries: Seq<(Vec<u8>, Vec<u8>)>,
    g0: MemoryGraph,
    i: int,
)
    requires
        is_snapshot_of(entries, g0),
        0 <= i < entries.len(),
    ensures
        ({
            let nc = g0.concepts@.len() as int;
            let ns = g0.short_term_edges@.len() as int;
            let nl = g0.long_term_edges@.len() as int;
            let nw = g0.working_memory@.len() as int;
            &&& (i < nc ==> entries[i].0@.len() >= 8 && entries[i].0@.subrange(0, 8)
                == concept_prefix())
            &&& (nc <= i < nc + ns ==> entries[i].0@.len() >= 8 && entries[i].0@.subrange(0, 8)
                == st_edge_prefix())
            &&& (nc + ns <= i < nc + ns + nl ==> entries[i].0@.len() >= 8
                && entries[i].0@.subrange(0, 8) == lt_edge_prefix())
            &&& (nc + ns + nl <= i < nc + ns + nl + nw ==> entries[i].0@.len() >= 8
                && entries[i].0@.subrange(0, 8) == working_prefix())
            &&& (i == nc + ns + nl + nw ==> entries[i].0@ == config_key())
        }),
{
    let nc = g0.concepts@.len() as int;
    let ns = g0.short_term_edges@.len() as int;
    let nl = g0.long_term_edges@.len() as int;
    let nw = g0.working_memory@.len() as int;
    if i < nc {
        assert(entries[i].0@ == concept_key(g0.concepts@[i].id.0));
        assert(entries[i].0@.subrange(0, 8) =~= concept_prefix());
    } else if i < nc + ns {
        assert(entries[i].0@ == edge_key(
            false,
            g0.short_term_edges@[i - nc].from.0,
            g0.short_term_edges@[i - nc].to.0,
        ));
        assert(entries[i].0@.subrange(0, 8) =~= st_edge_prefix());
    } else if i < nc + ns + nl {
        assert(entries[i].0@ == edge_key(
            true,
            g0.long_term_edges@[i - nc - ns].from.0,
            g0.long_term_edges@[i - nc - ns].to.0,
        ));
        assert(entries[i].0@.subrange(0, 8) =~= lt_edge_prefix());
    } else if i < nc + ns + nl + nw {
        assert(entries[i].0@ == working_key(g0.working_memory@[i - nc - ns - nl].0.0));
        assert(entries[i].0@.subrange(0, 8) =~= working_prefix());
    }
}

/// The facts that hold of a snapshot entry in an edge range: the range, the
/// value, and that the checks of the loader pass.
pub open spec fn edge_range_facts(
    entries: Seq<(Vec<u8>, Vec<u8>)>,
    g0: MemoryGraph,
    i: int,
    long_term: bool,
) -> bool {
    let nc = g0.concepts@.len() as int;
    let ns = g0.short_term_edges@.len() as int;
    let nl = g0.long_term_edges@.len() as int;
    if !long_term {
        &&& nc <= i < nc + ns
        &&& entries[i].1@ == edge_enc(g0.short_term_edges@[i - nc])
    } else {
        &&& nc + ns <= i < nc + ns + nl
        &&& entries[i].1@ == edge_enc(g0.long_term_edges@[i - nc - ns])
    }
}

/// The facts that hold of a snapshot entry in the working-memory range.
pub open spec fn working_range_facts(
    entries: Seq<(Vec<u8>, Vec<u8>)>,
    g0: MemoryGraph,
    i: int,
) -> bool {
    let nc = g0.concepts@.len() as int;
    let ns = g0.short_term_edges@.len() as int;
    let nl = g0.long_term_edges@.len() as int;
    let nw = g0.working_memory@.len() as int;
    &&& nc + ns + nl <= i < nc + ns + nl + nw
    &&& entries[i].1@ == working_enc(
        g0.working_memory@[i - nc - ns - nl].0,
        g0.working_memory@[i - nc - ns - nl].1,
    )
}

/// Under the snapshot hypothesis, the loader's edge checks cannot fail: the
/// endpoints exist among the loaded concepts, the weight is in range, and
/// the key is fresh in both zones.
pub proof fn lemma_edge_checks_pass(
    g0: MemoryGraph,
    e: SynapticEdge,
    long_term: bool,
    concepts: Seq<Concept>,
    st: Seq<SynapticEdge>,
    lt: Seq<SynapticEdge>,
    i: int,
)
    requires
        g0.wf(),
        concepts.len() == g0.concepts@.len(),
        forall|k: int|
            0 <= k < concepts.len() ==> concept_eq(#[trigger] concepts[k], g0.concepts@[k]),
        !long_term ==> e == g0.short_term_edges@[i - g0.concepts@.len()] && st
            == g0.short_term_edges@.take(i - g0.concepts@.len()) && lt == Seq::<
            SynapticEdge,
        >::empty() && 0 <= i - g0.concepts@.len() < g0.short_term_edges@.len(),
        long_term ==> e == g0.long_term_edges@[i - g0.concepts@.len()
            - g0.short_term_edges@.len()] && st == g0.short_term_edges@ && lt
            == g0.long_term_edges@.take(i - g0.concepts@.len() - g0.short_term_edges@.len()) && 0
            <= i - g0.concepts@.len() - g0.short_term_edges@.len() < g0.long_term_edges@.len(),
    ensures
        has_concept_id(concepts, e.from),
        has_concept_id(concepts, e.to),
        e.weight.0 <= UNIT,
        !crate::graph::has_edge_key(st, e.from, e.to),
        !crate::graph::has_edge_key(lt, e.from, e.to),
{
    let cs0 = g0.concepts@;
    assert(has_concept_id(cs0, e.from));
    let a = crate::graph::concept_index_of(cs0, e.from);
    assert(concepts[a].id == e.from);
    assert(has_concept_id(cs0, e.to));
    let b2 = crate::graph::concept_index_of(cs0, e.to);
    assert(concepts[b2].id == e.to);
    if !long_term {
        let j = i - g0.concepts@.len();
        assert(g0.short_term_edges@[j].wf());
        if crate::graph::has_edge_key(st, e.from, e.to) {
            let m = crate::graph::edge_index_of(st, e.from, e.to);
            assert(st[m] == g0.short_term_edges@[m]);
        }
    } else {
        let j = i - g0.concepts@.len() - g0.short_term_edges@.len();
        assert(g0.long_term_edges@[j].wf());
        if crate::graph::has_edge_key(st, e.from, e.to) {
            let m = crate::graph::edge_index_of(st, e.from, e.to);
            assert(!crate::graph::has_edge_key(
                g0.long_term_edges@,
                g0.short_term_edges@[m].from,
                g0.short_term_edges@[m].to,
            ));
            crate::graph::lemma_edge_index(g0.long_term_edges@, e.from, e.to, j);
        }
        if crate::graph::has_edge_key(lt, e.from, e.to) {
            let m = crate::graph::edge_index_of(lt, e.from, e.to);
            assert(lt[m] == g0.long_term_edges@[m]);
        }
    }
}

/// Rebuild a graph from stored key/value pairs.
///
/// Every entry is decoded and validated: duplicate identifiers or keys,
/// edges with missing endpoints, keys in both zones, out-of-range weights or
/// rates, and malformed bytes are all rejected as corruption.  A successful
/// rebuild is well formed; rebuilding the snapshot of a well-formed graph
/// succeeds and reproduces its concepts, both edge zones, working memory and
/// configuration exactly.
#[verifier::rlimit(100)]
#[verifier::spinoff_prover]
pub fn rebuild_graph(fallback: MemoryConfig, now: i64, entries: &Vec<(Vec<u8>, Vec<u8>)>) -> (r:
    Result<MemoryGraph, MemoryError>)
    requires
        fallback.wf(),
    ensures
        r.is_ok() ==> r.unwrap().wf() && r.unwrap().last_consolidation == now,
        forall|g0: MemoryGraph|
            (#[trigger] is_snapshot_of(entries@, g0) && g0.wf() && snapshot_sized(g0)) ==> {
                &&& r.is_ok()
                &&& r.unwrap().concepts@.len() == g0.concepts@.len()
                &&& forall|i: int|
                    0 <= i < g0.concepts@.len() ==> concept_eq(
                        #[trigger] r.unwrap().concepts@[i],
                        g0.concepts@[i],
                    )
                &&& r.unwrap().short_term_edges@ == g0.short_term_edges@
                &&& r.unwrap().long_term_edges@ == g0.long_term_edges@
                &&& r.unwrap().working_memory@ == g0.working_memory@
                &&& r.unwrap().config == g0.config
            },
{
    let total = entries.len();
    let mut concepts: Vec<Concept> = Vec::new();
    let mut st: Vec<SynapticEdge> = Vec::new();
    let mut lt: Vec<SynapticEdge> = Vec::new();
    let mut wm: Vec<(ConceptId, i64)> = Vec::new();
    let mut cfg_found: Option<MemoryConfig> = None;
    let mut i: usize = 0;
    while i < total
        invariant
            i <= total,
            total == entries@.len(),
            fallback.wf(),
            concept_ids_unique(concepts@),
            crate::graph::edge_keys_unique(st@),
            crate::graph::edge_keys_unique(lt@),
            crate::graph::wm_keys_unique(wm@),
            crate::graph::edges_wf(st@),
            crate::graph::edges_wf(lt@),
            crate::graph::edge_endpoints_exist(st@, concepts@),
            crate::graph::edge_endpoints_exist(lt@, concepts@),
            crate::graph::zones_disjoint(st@, lt@),
            cfg_found.is_some() ==> cfg_found.unwrap().wf(),
            forall|g0: MemoryGraph|
                (#[trigger] is_snapshot_of(entries@, g0) && g0.wf() && snapshot_sized(g0)) ==> {
                    let nc = g0.concepts@.len() as int;
                    let ns = g0.short_term_edges@.len() as int;
                    let nl = g0.long_term_edges@.len() as int;
                    let nw = g0.working_memory@.len() as int;
                    &&& concepts@.len() == covered(i as int, 0, nc)
                    &&& forall|k: int|
                        0 <= k < concepts@.len() ==> concept_eq(
                            #[trigger] concepts@[k],
                            g0.concepts@[k],
                        )
                    &&& st@ == g0.short_term_edges@.take(covered(i as int, nc, nc + ns))
                    &&& lt@ == g0.long_term_edges@.take(covered(i as int, nc + ns, nc + ns + nl))
                    &&& wm@ == g0.working_memory@.take(
                        covered(i as int, nc + ns + nl, nc + ns + nl + nw),
                    )
                    &&& if i as int > nc + ns + nl + nw {
                        cfg_found.is_some() && cfg_found.unwrap() == g0.config
                    } else {
                        cfg_found.is_none()
                    }
                },
            cfg_found.is_none() ==> forall|g0: MemoryGraph|
                (#[trigger] is_snapshot_of(entries@, g0) && g0.wf() && snapshot_sized(g0))
                    ==> i as int <= g0.concepts@.len() + g0.short_term_edges@.len()
                    + g0.long_term_edges@.len() + g0.working_memory@.len(),
        decreases total - i,
    {
        let kind = key_kind(&entries[i].0);
        if kind == 0 {
            proof {
                assert forall|g0: MemoryGraph|
                    (#[trigger] is_snapshot_of(entries@, g0) && g0.wf() && snapshot_sized(
                        g0,
                    )) implies (i as int) < g0.concepts@.len() by {
                    lemma_snapshot_entry_kind(entries@, g0, i as int);
                    lemma_prefixes_distinct();
                    if (i as int) >= g0.concepts@.len() {
                        assert(entries@[i as int].0@.len() >= 8 && entries@[
                            i as int
                        ].0@.subrange(0, 8) == concept_prefix());
                        if (i as int) == g0.concepts@.len() + g0.short_term_edges@.len()
                            + g0.long_term_edges@.len() + g0.working_memory@.len() {
                            assert(entries@[i as int].0@ == config_key());
                            assert(entries@[i as int].0@.len() == 6);
                        }
                    }
                }
            }
            let c = match decode_concept(&entries[i].1) {
                Some(c) => c,
                None => {
                    proof {
                        assert forall|g0: MemoryGraph|
                            (#[trigger] is_snapshot_of(entries@, g0) && g0.wf()
                                && snapshot_sized(g0)) implies false by {
                            assert(entries@[i as int].1@ == concept_enc(
                                g0.concepts@[i as int],
                            ));
                            assert(concept_sized(g0.concepts@[i as int]));
                        }
                    }
                    return Err(MemoryError::EncodingError);
                },
            };
            if crate::graph::find_concept(&concepts, c.id).is_some() {
                proof {
                    assert forall|g0: MemoryGraph|
                        (#[trigger] is_snapshot_of(entries@, g0) && g0.wf() && snapshot_sized(
                            g0,
                        )) implies false by {
                        assert(entries@[i as int].1@ == concept_enc(g0.concepts@[i as int]));
                        assert(concept_sized(g0.concepts@[i as int]));
                        assert(concept_eq(c, g0.concepts@[i as int]));
                        let j = crate::graph::concept_index_of(concepts@, c.id);
                        assert(concepts@[j].id == c.id);
                        assert(concept_eq(concepts@[j], g0.concepts@[j]));
                        assert(g0.concepts@[j].id == g0.concepts@[i as int].id);
                    }
                }
                return Err(MemoryError::EncodingError);
            }
            let ghost cpre = concepts@;
            concepts.push(c);
            proof {
                assert forall|g0: MemoryGraph|
                    (#[trigger] is_snapshot_of(entries@, g0) && g0.wf() && snapshot_sized(
                        g0,
                    )) implies concepts@.len() == covered(
                    i as int + 1,
                    0,
                    g0.concepts@.len() as int,
                ) && (forall|k: int|
                    0 <= k < concepts@.len() ==> concept_eq(
                        #[trigger] concepts@[k],
                        g0.concepts@[k],
                    )) by {
                    assert(entries@[i as int].1@ == concept_enc(g0.concepts@[i as int]));
                    assert(concept_sized(g0.concepts@[i as int]));
                    assert(concept_eq(c, g0.concepts@[i as int]));
                    assert forall|k: int| 0 <= k < concepts@.len() implies concept_eq(
                        #[trigger] concepts@[k],
                        g0.concepts@[k],
                    ) by {
                        if k < concepts@.len() - 1 {
                            assert(concepts@[k] == concepts@.drop_last()[k]);
                        }
                    }
                }
                assert forall|i2: int| 0 <= i2 < st@.len() implies has_concept_id(
                    concepts@,
                    (#[trigger] st@[i2]).from,
                ) && has_concept_id(concepts@, st@[i2].to) by {
                    assert(has_concept_id(cpre, st@[i2].from));
                    let a = crate::graph::concept_index_of(cpre, st@[i2].from);
                    assert(concepts@[a] == cpre[a]);
                    assert(concepts@[a].id == st@[i2].from);
                    assert(has_concept_id(cpre, st@[i2].to));
                    let b2 = crate::graph::concept_index_of(cpre, st@[i2].to);
                    assert(concepts@[b2] == cpre[b2]);
                    assert(concepts@[b2].id == st@[i2].to);
                }
                assert forall|i2: int| 0 <= i2 < lt@.len() implies has_concept_id(
                    concepts@,
                    (#[trigger] lt@[i2]).from,
                ) && has_concept_id(concepts@, lt@[i2].to) by {
                    assert(has_concept_id(cpre, lt@[i2].from));
                    let a = crate::graph::concept_index_of(cpre, lt@[i2].from);
                    assert(concepts@[a] == cpre[a]);
                    assert(concepts@[a].id == lt@[i2].from);
                    assert(has_concept_id(cpre, lt@[i2].to));
                    let b2 = crate::graph::concept_index_of(cpre, lt@[i2].to);
                    assert(concepts@[b2] == cpre[b2]);
                    assert(concepts@[b2].id == lt@[i2].to);
                }
            }
        } else if kind == 1 || kind == 2 {
            proof {
                assert forall|g0: MemoryGraph|
                    (#[trigger] is_snapshot_of(entries@, g0) && g0.wf() && snapshot_sized(
                        g0,
                    )) implies edge_range_facts(entries@, g0, i as int, kind == 2) by {
                    lemma_snapshot_entry_kind(entries@, g0, i as int);
                    lemma_prefixes_distinct();
                    let nc = g0.concepts@.len() as int;
                    let ns = g0.short_term_edges@.len() as int;
                    let nl = g0.long_term_edges@.len() as int;
                    let nw = g0.working_memory@.len() as int;
                    if (i as int) == nc + ns + nl + nw {
                        assert(entries@[i as int].0@ == config_key());
                        assert(entries@[i as int].0@.len() == 6);
                    }
                    if kind == 1 {
                        assert(nc <= i as int && (i as int) < nc + ns);
                        assert(g0.short_term_edges@.take(covered(i as int, nc, nc + ns))
                            =~= g0.short_term_edges@.take(i as int - nc));
                    } else {
                        assert(nc + ns <= i as int && (i as int) < nc + ns + nl);
                        assert(covered(i as int, 0, nc) == nc);
                    }
                }
            }
            let e = match decode_edge(&entries[i].1) {
                Some(e) => e,
                None => {
                    proof {
                        assert forall|g0: MemoryGraph|
                            (#[trigger] is_snapshot_of(entries@, g0) && g0.wf()
                                && snapshot_sized(g0)) implies false by {
                            assert(edge_range_facts(entries@, g0, i as int, kind == 2));
                        }
                    }
                    return Err(MemoryError::EncodingError);
                },
            };
            let from_missing = crate::graph::find_concept(&concepts, e.from).is_none();
            let to_missing = crate::graph::find_concept(&concepts, e.to).is_none();
            let heavy = e.weight.value() > UNIT;
            let dup = crate::graph::find_edge(&st, e.from, e.to).is_some()
                || crate::graph::find_edge(&lt, e.from, e.to).is_some();
            if from_missing || to_missing || heavy || dup {
                proof {
                    assert forall|g0: MemoryGraph|
                        (#[trigger] is_snapshot_of(entries@, g0) && g0.wf() && snapshot_sized(
                            g0,
                        )) implies false by {
                        assert(edge_range_facts(entries@, g0, i as int, kind == 2));
                        let nc = g0.concepts@.len() as int;
                        let ns = g0.short_term_edges@.len() as int;
                        let nl = g0.long_term_edges@.len() as int;
                        if kind == 1 {
                            assert(e == g0.short_term_edges@[i as int - nc]);
                            assert(st@ =~= g0.short_term_edges@.take(i as int - nc));
                            assert(lt@ =~= Seq::<SynapticEdge>::empty());
                        } else {
                            assert(e == g0.long_term_edges@[i as int - nc - ns]);
                            assert(st@ =~= g0.short_term_edges@);
                            assert(lt@ =~= g0.long_term_edges@.take(i as int - nc - ns));
                        }
                        lemma_edge_checks_pass(g0, e, kind == 2, concepts@, st@, lt@, i as int);
                    }
                }
                return Err(MemoryError::EncodingError);
            }
            if kind == 1 {
                st.push(e);
            } else {
                lt.push(e);
            }
            proof {
                assert forall|g0: MemoryGraph|
                    (#[trigger] is_snapshot_of(entries@, g0) && g0.wf() && snapshot_sized(
                        g0,
                    )) implies st@ == g0.short_term_edges@.take(
                    covered(
                        i as int + 1,
                        g0.concepts@.len() as int,
                        (g0.concepts@.len() + g0.short_term_edges@.len()) as int,
                    ),
                ) && lt@ == g0.long_term_edges@.take(
                    covered(
                        i as int + 1,
                        (g0.concepts@.len() + g0.short_term_edges@.len()) as int,
                        (g0.concepts@.len() + g0.short_term_edges@.len()
                            + g0.long_term_edges@.len()) as int,
                    ),
                ) by {
                    assert(edge_range_facts(entries@, g0, i as int, kind == 2));
                    let nc = g0.concepts@.len() as int;
                    let ns = g0.short_term_edges@.len() as int;
                    let nl = g0.long_term_edges@.len() as int;
                    if kind == 1 {
                        assert(st@ =~= g0.short_term_edges@.take(covered(
                            i as int + 1,
                            nc,
                            nc + ns,
                        )));
                    } else {
                        assert(lt@ =~= g0.long_term_edges@.take(covered(
                            i as int + 1,
                            nc + ns,
                            nc + ns + nl,
                        )));
                    }
                }
            }
        } else if kind == 3 {
            proof {
                assert forall|g0: MemoryGraph|
                    (#[trigger] is_snapshot_of(entries@, g0) && g0.wf() && snapshot_sized(
                        g0,
                    )) implies working_range_facts(entries@, g0, i as int) by {
                    lemma_snapshot_entry_kind(entries@, g0, i as int);
                    lemma_prefixes_distinct();
                    let nc = g0.concepts@.len() as int;
                    let ns = g0.short_term_edges@.len() as int;
                    let nl = g0.long_term_edges@.len() as int;
                    let nw = g0.working_memory@.len() as int;
                    if (i as int) == nc + ns + nl + nw {
                        assert(entries@[i as int].0@ == config_key());
                        assert(entries@[i as int].0@.len() == 6);
                    }
                    assert(nc + ns + nl <= i as int && (i as int) < nc + ns + nl + nw);
                }
            }
            let p = match decode_working(&entries[i].1) {
                Some(p) => p,
                None => {
                    proof {
                        assert forall|g0: MemoryGraph|
                            (#[trigger] is_snapshot_of(entries@, g0) && g0.wf()
                                && snapshot_sized(g0)) implies false by {
                            assert(working_range_facts(entries@, g0, i as int));
                        }
                    }
                    return Err(MemoryError::EncodingError);
                },
            };
            if crate::graph::find_working(&wm, p.0).is_some() {
                proof {
                    assert forall|g0: MemoryGraph|
                        (#[trigger] is_snapshot_of(entries@, g0) && g0.wf() && snapshot_sized(
                            g0,
                        )) implies false by {
                        assert(working_range_facts(entries@, g0, i as int));
                        let nc = g0.concepts@.len() as int;
                        let ns = g0.short_term_edges@.len() as int;
                        let nl = g0.long_term_edges@.len() as int;
                        let k = i as int - nc - ns - nl;
                        assert(p == g0.working_memory@[k]);
                        let j = crate::graph::wm_index_of(wm@, p.0);
                        assert(wm@[j].0 == p.0);
                        assert(wm@[j] == g0.working_memory@[j]);
                        assert(g0.working_memory@[j].0 != g0.working_memory@[k].0);
                    }
                }
                return Err(MemoryError::EncodingError);
            }
            wm.push(p);
            proof {
                assert forall|g0: MemoryGraph|
                    (#[trigger] is_snapshot_of(entries@, g0) && g0.wf() && snapshot_sized(
                        g0,
                    )) implies wm@ == g0.working_memory@.take(
                    covered(
                        i as int + 1,
                        (g0.concepts@.len() + g0.short_term_edges@.len()
                            + g0.long_term_edges@.len()) as int,
                        (g0.concepts@.len() + g0.short_term_edges@.len()
                            + g0.long_term_edges@.len() + g0.working_memory@.len()) as int,
                    ),
                ) by {
                    assert(working_range_facts(entries@, g0, i as int));
                    let nc = g0.concepts@.len() as int;
                    let ns = g0.short_term_edges@.len() as int;
                    let nl = g0.long_term_edges@.len() as int;
                    let nw = g0.working_memory@.len() as int;
                    assert(wm@ =~= g0.working_memory@.take(covered(
                        i as int + 1,
                        nc + ns + nl,
                        nc + ns + nl + nw,
                    )));
                }
            }
        } else if kind == 5 {
            proof {
                assert forall|g0: MemoryGraph|
                    (#[trigger] is_snapshot_of(entries@, g0) && g0.wf() && snapshot_sized(
                        g0,
                    )) implies (i as int) == g0.concepts@.len() + g0.short_term_edges@.len()
                    + g0.long_term_edges@.len() + g0.working_memory@.len() && entries@[
                    i as int
                ].1@ == config_enc(g0.config) by {
                    lemma_snapshot_entry_kind(entries@, g0, i as int);
                    lemma_prefixes_distinct();
                    let nc = g0.concepts@.len() as int;
                    let ns = g0.short_term_edges@.len() as int;
                    let nl = g0.long_term_edges@.len() as int;
                    let nw = g0.working_memory@.len() as int;
                    if (i as int) < nc + ns + nl + nw {
                        assert(entries@[i as int].0@.len() >= 8);
                        assert(entries@[i as int].0@ == config_key());
                    }
                }
            }
            let c = match decode_config(&entries[i].1) {
                Some(c) => c,
                None => {
                    proof {
                        assert forall|g0: MemoryGraph|
                            (#[trigger] is_snapshot_of(entries@, g0) && g0.wf()
                                && snapshot_sized(g0)) implies false by {
                            assert(entries@[i as int].1@ == config_enc(g0.config));
                        }
                    }
                    return Err(MemoryError::EncodingError);
                },
            };
            if c.learning_rate > UNIT || c.decay_rate > UNIT || c.consolidation_threshold > UNIT
                || cfg_found.is_some() {
                proof {
                    assert forall|g0: MemoryGraph|
                        (#[trigger] is_snapshot_of(entries@, g0) && g0.wf() && snapshot_sized(
                            g0,
                        )) implies false by {
                        assert(entries@[i as int].1@ == config_enc(g0.config));
                    }
                }
                return Err(MemoryError::EncodingError);
            }
            cfg_found = Some(c);
            proof {
                assert forall|g0: MemoryGraph|
                    (#[trigger] is_snapshot_of(entries@, g0) && g0.wf() && snapshot_sized(
                        g0,
                    )) implies cfg_found.unwrap() == g0.config by {
                    assert(entries@[i as int].1@ == config_enc(g0.config));
                }
            }
        } else {
            proof {
                assert forall|g0: MemoryGraph|
                    (#[trigger] is_snapshot_of(entries@, g0) && g0.wf() && snapshot_sized(
                        g0,
                    )) implies false by {
                    lemma_snapshot_entry_kind(entries@, g0, i as int);
                }
            }
            return Err(MemoryError::EncodingError);
        }
        i = i + 1;
    }
    let config = match cfg_found {
        Some(c) => c,
        None => fallback,
    };
    let g = MemoryGraph {
        concepts,
        short_term_edges: st,
        long_term_edges: lt,
        working_memory: wm,
        config,
        last_consolidation: now,
    };
    proof {
        assert forall|g0: MemoryGraph|
            (#[trigger] is_snapshot_of(entries@, g0) && g0.wf() && snapshot_sized(g0)) implies
            g.concepts@.len() == g0.concepts@.len() && g.short_term_edges@
            == g0.short_term_edges@ && g.long_term_edges@ == g0.long_term_edges@
            && g.working_memory@ == g0.working_memory@ && g.config == g0.config by {
            let nc = g0.concepts@.len() as int;
            let ns = g0.short_term_edges@.len() as int;
            let nl = g0.long_term_edges@.len() as int;
            let nw = g0.working_memory@.len() as int;
            assert(total == nc + ns + nl + nw + 1);
            assert(g0.short_term_edges@.take(ns) =~= g0.short_term_edges@);
            assert(g0.long_term_edges@.take(nl) =~= g0.long_term_edges@);
            assert(g0.working_memory@.take(nw) =~= g0.working_memory@);
        }
    }
    Ok(g)
}

/// Factory for creating memory graphs.
pub struct MemoryGraphFactory;

impl MemoryGraphFactory {
    /// Create an in-memory only graph, with no persistence behind it.
    pub fn create_memory_only(config: MemoryConfig, now: i64) -> (r: MemoryGraph)
        requires
            config.wf(),
        ensures
            r.wf(),
            r.concepts@.len() == 0,
            r.short_term_edges@.len() == 0,
            r.long_term_edges@.len() == 0,
            r.working_memory@.len() == 0,
            r.config == config,
            r.last_consolidation == now,
    {
        MemoryGraph::new(config, now)
    }
}

} // verus!
