//! Text utilities for content-based matching: lower-casing, whitespace
//! tokenization over UTF-8 bytes, and Jaccard similarity on token sets.
//!
//! Tokens are maximal runs of bytes between ASCII whitespace.  Multi-byte
//! UTF-8 sequences never contain ASCII bytes, so splitting on ASCII
//! whitespace respects character boundaries.

use vstd::prelude::*;
use vstd::string::StringSliceAdditionalSpecFns;
use crate::types::UNIT;

verus! {

/// What `str::to_lowercase` returns: a function of the characters alone.
pub uninterp spec fn lower_of(s: Seq<char>) -> Seq<char>;

/// Relies on `str::to_lowercase`: the lower-case form depends only on the
/// characters of the input, and an empty input stays empty.
#[verifier::external_body]
pub fn lowercase(s: &str) -> (r: String)
    ensures
        r@ == lower_of(s@),
        s@.len() == 0 ==> r@.len() == 0,
{
    s.to_lowercase()
}

/// ASCII whitespace.
pub open spec fn is_ws(b: u8) -> bool {
    b == 32 || b == 9 || b == 10 || b == 13
}

/// The first index at or after `i` holding whitespace (or the end).
pub open spec fn run_end(s: Seq<u8>, i: int) -> int
    decreases s.len() - i when i <= s.len()
{
    if i < 0 || i >= s.len() || is_ws(s[i]) {
        i
    } else {
        run_end(s, i + 1)
    }
}

/// The run end lies between `i` and the end of the sequence.
pub proof fn lemma_run_end_bounds(s: Seq<u8>, i: int)
    requires
        0 <= i <= s.len(),
    ensures
        i <= run_end(s, i) <= s.len(),
        forall|k: int| i <= k < run_end(s, i) ==> !is_ws(s[k]),
        run_end(s, i) < s.len() ==> is_ws(s[run_end(s, i)]),
    decreases s.len() - i,
{
    if i < s.len() && !is_ws(s[i]) {
        lemma_run_end_bounds(s, i + 1);
    }
}

/// The whitespace-separated tokens of `s` from position `i` on, in order,
/// duplicates included.
pub open spec fn token_seq_from(s: Seq<u8>, i: int) -> Seq<Seq<u8>>
    decreases s.len() - i, 1int when 0 <= i <= s.len()
{
    if i >= s.len() {
        Seq::empty()
    } else if is_ws(s[i]) {
        token_seq_from(s, i + 1)
    } else {
        token_seq_tail(s, i)
    }
}

/// Helper for `token_seq_from`: the token starting at non-whitespace `i`
/// followed by the rest.
pub open spec fn token_seq_tail(s: Seq<u8>, i: int) -> Seq<Seq<u8>>
    decreases s.len() - i, 0int when 0 <= i < s.len() && !is_ws(s[i]) via token_seq_tail_dec
{
    seq![s.subrange(i, run_end(s, i + 1))] + token_seq_from(s, run_end(s, i + 1))
}

#[via_fn]
proof fn token_seq_tail_dec(s: Seq<u8>, i: int) {
    if 0 <= i < s.len() && !is_ws(s[i]) {
        lemma_run_end_bounds(s, i + 1);
    }
}

/// The tokens of `s`, in order, duplicates included.
pub open spec fn token_seq(s: Seq<u8>) -> Seq<Seq<u8>> {
    token_seq_from(s, 0)
}

/// First occurrences only.
pub open spec fn dedup<T>(ts: Seq<T>) -> Seq<T>
    decreases ts.len(),
{
    if ts.len() == 0 {
        Seq::empty()
    } else {
        let d = dedup(ts.drop_last());
        if d.contains(ts.last()) {
            d
        } else {
            d.push(ts.last())
        }
    }
}

/// The distinct tokens of `s`, in first-occurrence order.
pub open spec fn distinct_tokens(s: Seq<u8>) -> Seq<Seq<u8>> {
    dedup(token_seq(s))
}

/// The distinct tokens longer than two bytes, in first-occurrence order.
pub open spec fn distinct_long_tokens(s: Seq<u8>) -> Seq<Seq<u8>> {
    dedup(token_seq(s).filter(|t: Seq<u8>| t.len() > 2))
}

/// Jaccard similarity of the two distinct-token sequences, as a fraction of
/// [`UNIT`]: intersection size over union size, `0` when either is empty.
pub open spec fn jaccard(ta: Seq<Seq<u8>>, tb: Seq<Seq<u8>>) -> u64 {
    if ta.len() == 0 || tb.len() == 0 {
        0
    } else {
        let inter = ta.filter(|t: Seq<u8>| tb.contains(t)).len() as int;
        let union = ta.len() + tb.len() - inter;
        ((inter * (UNIT as int)) / union) as u64
    }
}

/// Content similarity of two texts: Jaccard over the distinct lower-cased
/// whitespace tokens.
pub open spec fn content_similarity(a: Seq<char>, b: Seq<char>) -> u64 {
    jaccard(
        distinct_tokens(vstd::utf8::encode_utf8(lower_of(a))),
        distinct_tokens(vstd::utf8::encode_utf8(lower_of(b))),
    )
}

/// Whether two byte strings are equal.
pub fn bytes_eq(a: &Vec<u8>, b: &Vec<u8>) -> (r: bool)
    ensures
        r == (a@ == b@),
{
    if a.len() != b.len() {
        proof {
            if a@ == b@ {
                assert(a@.len() == b@.len());
            }
        }
        return false;
    }
    let mut k: usize = 0;
    while k < a.len()
        invariant
            k <= a@.len(),
            a@.len() == b@.len(),
            forall|m: int| 0 <= m < k ==> a@[m] == b@[m],
        decreases a@.len() - k,
    {
        if a[k] != b[k] {
            proof {
                if a@ == b@ {
                    assert(a@[k as int] == b@[k as int]);
                }
            }
            return false;
        }
        k = k + 1;
    }
    proof {
        assert(a@ =~= b@);
    }
    true
}

/// Whether the list of byte strings holds one with these bytes.
pub fn bytes_in_list(ts: &Vec<Vec<u8>>, x: &Vec<u8>) -> (r: bool)
    ensures
        r == ts.deep_view().contains(x@),
{
    let mut i: usize = 0;
    while i < ts.len()
        invariant
            i <= ts@.len(),
            forall|j: int| 0 <= j < i ==> ts.deep_view()[j] != x@,
        decreases ts@.len() - i,
    {
        if bytes_eq(&ts[i], x) {
            proof {
                assert(ts.deep_view()[i as int] == x@);
            }
            return true;
        }
        proof {
            assert(ts.deep_view()[i as int] == ts@[i as int]@);
        }
        i = i + 1;
    }
    proof {
        if ts.deep_view().contains(x@) {
            let j = choose|j: int| 0 <= j < ts.deep_view().len() && ts.deep_view()[j] == x@;
        }
    }
    false
}

/// Split into distinct whitespace-separated tokens, in first-occurrence
/// order; tokens of at most `min_len` bytes are dropped first when
/// `min_len > 0`.
pub fn tokenize_distinct(s: &str, min_len: usize) -> (r: Vec<Vec<u8>>)
    ensures
        min_len == 0 ==> r.deep_view() == distinct_tokens(s.spec_bytes()),
        min_len == 2 ==> r.deep_view() == distinct_long_tokens(s.spec_bytes()),
{
    let bytes = s.as_bytes();
    let ghost bs = s.spec_bytes();
    let n = bytes.len();
    let mut out: Vec<Vec<u8>> = Vec::new();
    let mut pos: usize = 0;
    let mut ghost_consumed: Ghost<Seq<Seq<u8>>> = Ghost(Seq::empty());
    proof {
        assert(token_seq(bs) == ghost_consumed@ + token_seq_from(bs, 0));
    }
    while pos < n
        invariant
            pos <= n,
            n == bs.len(),
            bytes@ == bs,
            token_seq(bs) == ghost_consumed@ + token_seq_from(bs, pos as int),
            out.deep_view() == dedup(
                if min_len == 0 {
                    ghost_consumed@
                } else {
                    ghost_consumed@.filter(|t: Seq<u8>| t.len() > min_len)
                },
            ),
        decreases n - pos,
    {
        if is_ws_exec(bytes[pos]) {
            proof {
                assert(token_seq_from(bs, pos as int) == token_seq_from(bs, pos as int + 1));
            }
            pos = pos + 1;
        } else {
            proof {
                lemma_run_end_bounds(bs, pos as int + 1);
            }
            let start = pos;
            let mut end = pos + 1;
            while end < n && !is_ws_exec(bytes[end])
                invariant
                    start < end <= n,
                    n == bs.len(),
                    bytes@ == bs,
                    forall|k: int| start + 1 <= k < end ==> !is_ws(bs[k]),
                decreases n - end,
            {
                end = end + 1;
            }
            proof {
                lemma_run_end_exact(bs, start as int + 1, end as int);
            }
            let mut tok: Vec<u8> = Vec::new();
            let mut k = start;
            while k < end
                invariant
                    start <= k <= end <= n,
                    n == bs.len(),
                    bytes@ == bs,
                    tok@ =~= bs.subrange(start as int, k as int),
                decreases end - k,
            {
                tok.push(bytes[k]);
                proof {
                    assert(tok@ =~= bs.subrange(start as int, k as int + 1));
                }
                k = k + 1;
            }
            proof {
                assert(tok@ =~= bs.subrange(start as int, end as int));
                assert(run_end(bs, start as int + 1) == end as int);
                assert(!is_ws(bs[start as int]));
                assert(token_seq_from(bs, start as int) == token_seq_tail(bs, start as int));
                assert(token_seq_tail(bs, start as int) == seq![
                    bs.subrange(start as int, run_end(bs, start as int + 1)),
                ] + token_seq_from(bs, run_end(bs, start as int + 1)));
                assert(token_seq_from(bs, start as int) == seq![
                    bs.subrange(start as int, end as int),
                ] + token_seq_from(bs, end as int));
            }
            let keep = tok.len() > min_len;
            let ghost old_consumed = ghost_consumed@;
            proof {
                ghost_consumed@ = ghost_consumed@.push(tok@);
                assert(token_seq(bs) == ghost_consumed@ + token_seq_from(bs, end as int)) by {
                    assert(old_consumed + token_seq_from(bs, start as int) =~~= ghost_consumed@
                        + token_seq_from(bs, end as int));
                }
                let f = if min_len == 0 {
                    old_consumed
                } else {
                    old_consumed.filter(|t: Seq<u8>| t.len() > min_len)
                };
                let f2 = if min_len == 0 {
                    ghost_consumed@
                } else {
                    ghost_consumed@.filter(|t: Seq<u8>| t.len() > min_len)
                };
                if min_len > 0 {
                    crate::plasticity::lemma_push_filter(
                        old_consumed,
                        tok@,
                        |t: Seq<u8>| t.len() > min_len,
                    );
                }
                if keep || min_len == 0 {
                    assert(f2 == f.push(tok@));
                    assert(f2.drop_last() =~= f);
                    assert(dedup(f2) == if dedup(f).contains(tok@) {
                        dedup(f)
                    } else {
                        dedup(f).push(tok@)
                    });
                } else {
                    assert(f2 == f);
                }
            }
            if keep {
                let already = bytes_in_list(&out, &tok);
                if !already {
                    let ghost out0 = out.deep_view();
                    out.push(tok);
                    proof {
                        assert(out.deep_view() =~~= out0.push(
                            bs.subrange(start as int, end as int),
                        ));
                    }
                }
            }
            pos = end;
        }
    }
    proof {
        assert(token_seq_from(bs, n as int) =~= Seq::<Seq<u8>>::empty());
        assert(token_seq(bs) =~= ghost_consumed@);
        if min_len == 2 {
            assert(out.deep_view() == distinct_long_tokens(bs));
        }
    }
    out
}

/// The run really ends at `end`.
pub proof fn lemma_run_end_exact(s: Seq<u8>, i: int, end: int)
    requires
        0 <= i <= end <= s.len(),
        forall|k: int| i <= k < end ==> !is_ws(s[k]),
        end < s.len() ==> is_ws(s[end]),
    ensures
        run_end(s, i) == end,
    decreases end - i,
{
    if i < end {
        lemma_run_end_exact(s, i + 1, end);
    }
}

/// Whether a byte is ASCII whitespace.
pub fn is_ws_exec(b: u8) -> (r: bool)
    ensures
        r == is_ws(b),
{
    b == 32 || b == 9 || b == 10 || b == 13
}

/// A distinct sequence filtered to members of another sequence is no longer
/// than that other sequence.
pub proof fn lemma_inter_bound(ta: Seq<Seq<u8>>, tb: Seq<Seq<u8>>)
    requires
        forall|a: int, b: int| 0 <= a < b < ta.len() ==> ta[a] != ta[b],
    ensures
        ta.filter(|t: Seq<u8>| tb.contains(t)).len() <= tb.len(),
{
    broadcast use vstd::seq_lib::group_filter_ensures;
    broadcast use vstd::set_lib::group_set_lib_default;
    broadcast use vstd::seq_lib::seq_to_set_is_finite;

    let pred = |t: Seq<u8>| tb.contains(t);
    let f = ta.filter(pred);
    crate::graph::lemma_filter_keys_distinct(ta, pred, |t: Seq<u8>| t);
    assert forall|a: int, b: int|
        0 <= a < f.len() && 0 <= b < f.len() && a != b implies f[a] != f[b] by {
        let key = |t: Seq<u8>| t;
        if a < b {
            assert(key(f[a]) != key(f[b]));
        } else {
            assert(key(f[b]) != key(f[a]));
        }
    }
    f.unique_seq_to_set();
    assert(f.to_set().subset_of(tb.to_set())) by {
        assert forall|t: Seq<u8>| f.to_set().contains(t) implies tb.to_set().contains(t) by {
            let j = choose|j: int| 0 <= j < f.len() && f[j] == t;
            assert(pred(f[j]));
            assert(tb.contains(t));
            let m = choose|m: int| 0 <= m < tb.len() && tb[m] == t;
            assert(tb.to_set().contains(tb[m]));
        }
    }
    tb.lemma_cardinality_of_set();
    vstd::set_lib::lemma_len_subset(f.to_set(), tb.to_set());
}

/// Jaccard similarity of two distinct-token lists, as a fraction of
/// [`UNIT`].
pub fn jaccard_exec(ta: &Vec<Vec<u8>>, tb: &Vec<Vec<u8>>) -> (r: u64)
    requires
        forall|a: int, b: int|
            0 <= a < b < ta.deep_view().len() ==> ta.deep_view()[a] != ta.deep_view()[b],
    ensures
        r == jaccard(ta.deep_view(), tb.deep_view()),
        r <= UNIT,
{
    if ta.len() == 0 || tb.len() == 0 {
        return 0;
    }
    let ghost tav = ta.deep_view();
    let ghost tbv = tb.deep_view();
    let mut inter: usize = 0;
    let mut i: usize = 0;
    while i < ta.len()
        invariant
            i <= tav.len(),
            tav == ta.deep_view(),
            tbv == tb.deep_view(),
            ta@.len() == tav.len(),
            inter == tav.take(i as int).filter(|t: Seq<u8>| tbv.contains(t)).len(),
            inter <= i,
        decreases tav.len() - i,
    {
        proof {
            crate::graph::lemma_take_filter_step(tav, |t: Seq<u8>| tbv.contains(t), i as int);
            assert(ta.deep_view()[i as int] == ta@[i as int]@);
        }
        if bytes_in_list(tb, &ta[i]) {
            inter = inter + 1;
        }
        i = i + 1;
    }
    proof {
        assert(tav.take(tav.len() as int) =~= tav);
        broadcast use vstd::seq_lib::group_filter_ensures;

        assert(inter <= tav.len());
    }
    let na = ta.len();
    let nb = tb.len();
    let union: u128 = (na as u128) + (nb as u128) - (inter as u128);
    let scaled: u128 = (inter as u128) * (UNIT as u128);
    let sim: u128 = scaled / union;
    proof {
        lemma_inter_bound(tav, tbv);
        let inter_i = tav.filter(|t: Seq<u8>| tbv.contains(t)).len() as int;
        let union_i = tav.len() + tbv.len() - inter_i;
        assert(union_i >= 1);
        assert((inter_i * (UNIT as int)) / union_i <= UNIT) by (nonlinear_arith)
            requires
                0 <= inter_i <= union_i,
                union_i >= 1,
        ;
    }
    sim as u64
}

/// Content similarity of two texts, as a fraction of [`UNIT`].
pub fn content_similarity_exec(a: &str, b: &str) -> (r: u64)
    ensures
        r == content_similarity(a@, b@),
        r <= UNIT,
{
    let la = lowercase(a);
    let lb = lowercase(b);
    let sa = la.as_str();
    let sb = lb.as_str();
    let ta = tokenize_distinct(sa, 0);
    let tb = tokenize_distinct(sb, 0);
    proof {
        assert(sa.spec_bytes() == vstd::utf8::encode_utf8(la@));
        assert(sb.spec_bytes() == vstd::utf8::encode_utf8(lb@));
        assert(ta.deep_view() == dedup(token_seq(sa.spec_bytes())));
        lemma_dedup_distinct(token_seq(sa.spec_bytes()));
        assert forall|x: int, y: int| 0 <= x < y < ta.deep_view().len() implies ta.deep_view()[x]
            != ta.deep_view()[y] by {
            assert(dedup(token_seq(sa.spec_bytes()))[x] != dedup(token_seq(sa.spec_bytes()))[y]);
        }
    }
    jaccard_exec(&ta, &tb)
}

/// Deduplication leaves no duplicates.
pub proof fn lemma_dedup_distinct<T>(ts: Seq<T>)
    ensures
        forall|a: int, b: int|
            0 <= a < b < dedup(ts).len() ==> dedup(ts)[a] != dedup(ts)[b],
        forall|a: int| 0 <= a < dedup(ts).len() ==> ts.contains(#[trigger] dedup(ts)[a]),
    decreases ts.len(),
{
    if ts.len() > 0 {
        let d = dedup(ts.drop_last());
        lemma_dedup_distinct(ts.drop_last());
        assert forall|a: int| 0 <= a < dedup(ts).len() implies ts.contains(
            #[trigger] dedup(ts)[a],
        ) by {
            if a < d.len() {
                assert(ts.drop_last().contains(d[a]));
                let j = choose|j: int| 0 <= j < ts.drop_last().len() && ts.drop_last()[j] == d[a];
                assert(ts[j] == d[a]);
            } else {
                assert(dedup(ts)[a] == ts.last());
                assert(ts[ts.len() - 1] == ts.last());
            }
        }
        if !d.contains(ts.last()) {
            assert forall|a: int, b: int| 0 <= a < b < dedup(ts).len() implies dedup(ts)[a]
                != dedup(ts)[b] by {
                if b == dedup(ts).len() - 1 {
                    assert(dedup(ts)[b] == ts.last());
                    assert(d.contains(d[a]));
                }
            }
        }
    }
}

} // verus!
