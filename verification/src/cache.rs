//! A read-through cache in front of the durable store, keyed by the encoded
//! store key, with hit and miss statistics.

use vstd::prelude::*;
use crate::types::UNIT;
use crate::persistence::{hit_rate, hit_rate_exec};

verus! {

/// Whether a byte-string list holds these bytes at some index.
pub open spec fn cache_has(keys: Seq<Vec<u8>>, k: Seq<u8>) -> bool {
    exists|i: int| 0 <= i < keys.len() && keys[i]@ == k
}

/// The index of a key in the cache.
pub open spec fn cache_index_of(keys: Seq<Vec<u8>>, k: Seq<u8>) -> int {
    choose|i: int| 0 <= i < keys.len() && keys[i]@ == k
}

/// A read-through cache in front of the store, keyed by the encoded store
/// key, with hit and miss counters.
pub struct ReadCache {
    pub keys: Vec<Vec<u8>>,
    pub values: Vec<Vec<u8>>,
    pub hits: u64,
    pub misses: u64,
}

impl ReadCache {
    /// Keys are unique and each key has a value.
    pub open spec fn wf(self) -> bool {
        &&& self.keys@.len() == self.values@.len()
        &&& forall|a: int, b: int|
            0 <= a < b < self.keys@.len() ==> self.keys@[a]@ != self.keys@[b]@
    }

    /// The cached value of a key.
    pub open spec fn value_of(self, k: Seq<u8>) -> Seq<u8> {
        self.values@[cache_index_of(self.keys@, k)]@
    }

    /// An empty cache with zeroed counters.
    pub fn new() -> (r: Self)
        ensures
            r.wf(),
            r.keys@.len() == 0,
            r.hits == 0,
            r.misses == 0,
    {
        ReadCache { keys: Vec::new(), values: Vec::new(), hits: 0, misses: 0 }
    }

    /// Look a key up, counting a hit or a miss (saturating).
    pub fn lookup(&mut self, k: &Vec<u8>) -> (r: Option<Vec<u8>>)
        requires
            old(self).wf(),
        ensures
            final(self).wf(),
            final(self).keys@ == old(self).keys@,
            final(self).values@ == old(self).values@,
            r.is_some() == cache_has(old(self).keys@, k@),
            r.is_some() ==> r.unwrap()@ == old(self).value_of(k@) && final(self).hits
                == if old(self).hits < u64::MAX {
                (old(self).hits + 1) as u64
            } else {
                old(self).hits
            } && final(self).misses == old(self).misses,
            r.is_none() ==> final(self).misses == (if old(self).misses < u64::MAX {
                (old(self).misses + 1) as u64
            } else {
                old(self).misses
            }) && final(self).hits == old(self).hits,
    {
        let mut i: usize = 0;
        while i < self.keys.len()
            invariant
                i <= self.keys@.len(),
                self.wf(),
                *self == *old(self),
                forall|j: int| 0 <= j < i ==> self.keys@[j]@ != k@,
            decreases self.keys@.len() - i,
        {
            if crate::text::bytes_eq(&self.keys[i], k) {
                proof {
                    let j = cache_index_of(self.keys@, k@);
                    assert(self.keys@[i as int]@ == k@);
                    if j != i as int {
                        assert(self.keys@[j]@ == k@);
                    }
                }
                let value = clone_bytes_out(&self.values[i]);
                if self.hits < u64::MAX {
                    self.hits = self.hits + 1;
                }
                return Some(value);
            }
            i = i + 1;
        }
        proof {
            if cache_has(self.keys@, k@) {
                let j = cache_index_of(self.keys@, k@);
            }
        }
        if self.misses < u64::MAX {
            self.misses = self.misses + 1;
        }
        None
    }

    /// Store a key's value, replacing any previous one.
    pub fn store(&mut self, k: &Vec<u8>, v: Vec<u8>)
        requires
            old(self).wf(),
        ensures
            final(self).wf(),
            cache_has(final(self).keys@, k@),
            final(self).value_of(k@) == v@,
            forall|x: Seq<u8>|
                x != k@ ==> #[trigger] cache_has(final(self).keys@, x) == cache_has(
                    old(self).keys@,
                    x,
                ) && (cache_has(old(self).keys@, x) ==> final(self).value_of(x) == old(
                    self,
                ).value_of(x)),
            final(self).hits == old(self).hits,
            final(self).misses == old(self).misses,
    {
        let ghost k0 = self.keys@;
        let ghost v0 = self.values@;
        let mut i: usize = 0;
        while i < self.keys.len()
            invariant
                i <= self.keys@.len(),
                self.wf(),
                *self == *old(self),
                k0 == self.keys@,
                v0 == self.values@,
                forall|j: int| 0 <= j < i ==> self.keys@[j]@ != k@,
            decreases self.keys@.len() - i,
        {
            if crate::text::bytes_eq(&self.keys[i], k) {
                self.values[i] = v;
                proof {
                    lemma_cache_entry(self.keys@, i as int, k@);
                    assert forall|x: Seq<u8>|
                        x != k@ implies #[trigger] cache_has(self.keys@, x) == cache_has(k0, x)
                        && (cache_has(k0, x) ==> self.value_of(x) == v0[cache_index_of(
                        k0,
                        x,
                    )]@) by {
                        if cache_has(k0, x) {
                            let j = cache_index_of(k0, x);
                            lemma_cache_entry(self.keys@, j, x);
                        }
                    }
                }
                return ;
            }
            i = i + 1;
        }
        let kc = clone_bytes_out(k);
        self.keys.push(kc);
        self.values.push(v);
        proof {
            assert forall|a: int, b: int| 0 <= a < b < self.keys@.len() implies self.keys@[a]@
                != self.keys@[b]@ by {
                if b < k0.len() {
                    assert(self.keys@[a] == k0[a] && self.keys@[b] == k0[b]);
                } else {
                    assert(self.keys@[b]@ == k@);
                    assert(self.keys@[a] == k0[a]);
                }
            }
            lemma_cache_entry(self.keys@, k0.len() as int, k@);
            assert forall|x: Seq<u8>|
                x != k@ implies #[trigger] cache_has(self.keys@, x) == cache_has(k0, x) && (
            cache_has(k0, x) ==> self.value_of(x) == v0[cache_index_of(k0, x)]@) by {
                if cache_has(k0, x) {
                    let j = cache_index_of(k0, x);
                    assert(self.keys@[j]@ == x);
                    lemma_cache_entry(self.keys@, j, x);
                }
                if cache_has(self.keys@, x) {
                    let j = cache_index_of(self.keys@, x);
                    assert(j < k0.len());
                    assert(k0[j]@ == x);
                }
            }
        }
    }

    /// Drop everything and zero the counters.
    pub fn clear(&mut self)
        ensures
            final(self).wf(),
            final(self).keys@.len() == 0,
            final(self).hits == 0,
            final(self).misses == 0,
    {
        self.keys = Vec::new();
        self.values = Vec::new();
        self.hits = 0;
        self.misses = 0;
    }

    /// The cache hit rate so far, as a fraction of [`UNIT`].
    pub fn rate(&self) -> (r: u64)
        ensures
            r == hit_rate(self.hits, self.misses),
    {
        hit_rate_exec(self.hits, self.misses)
    }
}

/// With unique keys, the entry at a matching index is the entry of the key.
pub proof fn lemma_cache_entry(keys: Seq<Vec<u8>>, i: int, k: Seq<u8>)
    requires
        forall|a: int, b: int| 0 <= a < b < keys.len() ==> keys[a]@ != keys[b]@,
        0 <= i < keys.len(),
        keys[i]@ == k,
    ensures
        cache_has(keys, k),
        cache_index_of(keys, k) == i,
{
    assert(cache_has(keys, k));
    let j = cache_index_of(keys, k);
    if j != i {
        if j < i {
            assert(keys[j]@ != keys[i]@);
        } else {
            assert(keys[i]@ != keys[j]@);
        }
    }
}

/// Copy a byte string.
fn clone_bytes_out(v: &Vec<u8>) -> (r: Vec<u8>)
    ensures
        r@ == v@,
{
    let mut out: Vec<u8> = Vec::new();
    let mut i: usize = 0;
    while i < v.len()
        invariant
            i <= v@.len(),
            out@ =~= v@.take(i as int),
        decreases v@.len() - i,
    {
        out.push(v[i]);
        proof {
            assert(out@ =~= v@.take(i as int + 1));
        }
        i = i + 1;
    }
    proof {
        assert(v@.take(v@.len() as int) =~= v@);
    }
    out
}

} // verus!
