//! The radix-map matching engine: reference and query landmarks are sorted
//! by hash and merge-joined; every pair of landmarks with equal hashes (and
//! a reference hash that is not too common) votes for the quantized frame
//! offset between them. A sliding window over the vote counts keeps only the
//! pairs whose offset lies in a "warm" region.

use vstd::prelude::*;
use vstd::multiset::*;
use crate::bag::{bag_sum, pair_bag, lemma_bag_sum_perm, lemma_pair_bag_empty, lemma_pair_bag_support};
use crate::merge_join::{
    separated,
    hash_keyed,
    lemma_finish,
    lemma_group,
    lemma_hash_count_run,
    lemma_separated_start,
    lemma_skip_query,
    lemma_skip_ref,
    lemma_step_query,
    lemma_step_ref,
};
use rayon::slice::ParallelSliceMut;
use std::time::Duration;
use crate::clock::{clock_elapsed, clock_now};
use crate::clusters::{DeltaCluster, delta_clusters_of, extract_delta_clusters};

verus! {

broadcast use {vstd::seq_lib::group_to_multiset_ensures, vstd::multiset::group_multiset_axioms};

/// A fingerprint of a reference episode.
#[derive(Debug, Clone, Copy, PartialEq, Eq)]
pub struct RefLandmark {
    pub hash: u32,
    pub ref_idx: u16,
    pub r_frame: u32,
}

/// A fingerprint of the episode being cut.
#[derive(Debug, Clone, Copy, PartialEq, Eq)]
pub struct QueryLandmark {
    pub hash: u32,
    pub q_frame: u32,
}

/// A matching landmark pair: the quantized offset from query to reference
/// frame, and the query frame.
#[derive(Debug, Clone, Copy, PartialEq, Eq, PartialOrd, Ord)]
pub struct MatchPair {
    pub ref_idx: u16,
    pub delta_q: i32,
    pub q_frame: u32,
}

pub open spec fn refs_sorted_by_hash(s: Seq<RefLandmark>) -> bool {
    forall|i: int, j: int| 0 <= i <= j < s.len() ==> s[i].hash <= s[j].hash
}

pub open spec fn queries_sorted_by_hash(s: Seq<QueryLandmark>) -> bool {
    forall|i: int, j: int| 0 <= i <= j < s.len() ==> s[i].hash <= s[j].hash
}


/// The multiset of the hashes of the reference landmarks.
pub open spec fn ref_hash_bag(refs: Seq<RefLandmark>) -> Multiset<u32> {
    bag_sum(refs, |r: RefLandmark| Multiset::singleton(r.hash))
}

/// How many reference landmarks carry hash `h`.
pub open spec fn hash_count(refs: Seq<RefLandmark>, h: u32) -> nat {
    ref_hash_bag(refs).count(h)
}

/// `(delta + 1) / 2 * 2` with Rust's truncating division: the frame offset
/// rounded to an even number.
pub open spec fn quantize_delta(delta: int) -> int {
    let s = delta + 1;
    if s >= 0 {
        (s / 2) * 2
    } else {
        -(((-s) / 2) * 2)
    }
}

/// The quantized offset from the query frame to the reference frame.
pub open spec fn pair_delta(r: RefLandmark, q: QueryLandmark) -> int {
    quantize_delta(r.r_frame as int - q.q_frame as int)
}

/// A reference and a query landmark vote for an offset when their hashes
/// agree and that hash occurs at most `max_occurrences` times among all
/// reference landmarks `refs_all`.
pub open spec fn is_candidate(
    refs_all: Seq<RefLandmark>,
    max_occurrences: usize,
    r: RefLandmark,
    q: QueryLandmark,
) -> bool {
    r.hash == q.hash && hash_count(refs_all, r.hash) <= max_occurrences
}

pub open spec fn delta_term(refs_all: Seq<RefLandmark>, max_occurrences: usize) -> spec_fn(
    RefLandmark,
    QueryLandmark,
) -> Multiset<int> {
    |r: RefLandmark, q: QueryLandmark|
        if is_candidate(refs_all, max_occurrences, r, q) {
            Multiset::singleton(pair_delta(r, q))
        } else {
            Multiset::empty()
        }
}

/// The offset votes of all candidate pairs (one vote per pair).
pub open spec fn candidate_deltas(
    refs: Seq<RefLandmark>,
    query: Seq<QueryLandmark>,
    max_occurrences: usize,
) -> Multiset<int> {
    pair_bag(refs, query, delta_term(refs, max_occurrences))
}

/// The number of votes for the offsets `lo .. hi`.
pub open spec fn window_total(deltas: Multiset<int>, lo: int, hi: int) -> nat
    decreases hi - lo,
{
    if hi <= lo {
        0
    } else {
        window_total(deltas, lo, hi - 1) + deltas.count(hi - 1)
    }
}

/// An offset is warm when the window of `window_bins / 2` offsets on each
/// side of it (itself included) holds at least `threshold` votes.
pub open spec fn is_warm(deltas: Multiset<int>, window_bins: usize, threshold: u32, d: int) -> bool {
    let half = (window_bins / 2) as int;
    window_total(deltas, d - half, d + half + 1) >= threshold
}

pub open spec fn match_of(r: RefLandmark, q: QueryLandmark) -> MatchPair {
    MatchPair { ref_idx: 0, delta_q: pair_delta(r, q) as i32, q_frame: q.q_frame }
}

pub open spec fn warm_term(
    refs_all: Seq<RefLandmark>,
    max_occurrences: usize,
    deltas: Multiset<int>,
    window_bins: usize,
    threshold: u32,
) -> spec_fn(RefLandmark, QueryLandmark) -> Multiset<MatchPair> {
    |r: RefLandmark, q: QueryLandmark|
        if is_candidate(refs_all, max_occurrences, r, q) && is_warm(
            deltas,
            window_bins,
            threshold,
            pair_delta(r, q),
        ) {
            Multiset::singleton(match_of(r, q))
        } else {
            Multiset::empty()
        }
}

/// The match pairs of all candidate pairs whose offset is warm.
pub open spec fn warm_matches(
    refs: Seq<RefLandmark>,
    query: Seq<QueryLandmark>,
    max_occurrences: usize,
    window_bins: usize,
    threshold: u32,
) -> Multiset<MatchPair> {
    pair_bag(
        refs,
        query,
        warm_term(
            refs,
            max_occurrences,
            candidate_deltas(refs, query, max_occurrences),
            window_bins,
            threshold,
        ),
    )
}

/// Lexicographic order on `(ref_idx, delta_q, q_frame)`.
pub open spec fn match_pair_le(a: MatchPair, b: MatchPair) -> bool {
    a.ref_idx < b.ref_idx || (a.ref_idx == b.ref_idx && (a.delta_q < b.delta_q || (a.delta_q
        == b.delta_q && a.q_frame <= b.q_frame)))
}

pub open spec fn match_pairs_sorted(s: Seq<MatchPair>) -> bool {
    forall|i: int, j: int| 0 <= i <= j < s.len() ==> match_pair_le(s[i], s[j])
}

/// Largest frame number the engine accepts (offsets then fit an `i32`).
pub const MAX_FRAME: u32 = 0x3FFF_FFFE;

pub open spec fn frames_bounded(refs: Seq<RefLandmark>, query: Seq<QueryLandmark>) -> bool {
    &&& forall|i: int| 0 <= i < refs.len() ==> #[trigger] refs[i].r_frame <= MAX_FRAME
    &&& forall|j: int| 0 <= j < query.len() ==> #[trigger] query[j].q_frame <= MAX_FRAME
}


/// Rounds a frame offset to an even number: `(delta + 1) / 2 * 2`.
fn quantize_offset(delta: i32) -> (d: i32)
    requires
        -0x4000_0000 <= delta <= 0x4000_0000,
    ensures
        d == quantize_delta(delta as int),
{
    let s = delta + 1;
    if s >= 0 {
        s / 2 * 2
    } else {
        -((-s) / 2 * 2)
    }
}

proof fn lemma_quantize_bounds(delta: int, m: int)
    requires
        -m <= delta <= m,
        0 <= m,
    ensures
        -m <= quantize_delta(delta) <= m + 1,
        quantize_delta(delta) % 2 == 0,
{
}

proof fn lemma_window_split(deltas: Multiset<int>, lo: int, mid: int, hi: int)
    requires
        lo <= mid <= hi,
    ensures
        window_total(deltas, lo, hi) == window_total(deltas, lo, mid) + window_total(deltas, mid, hi),
    decreases hi - mid,
{
    if hi > mid {
        lemma_window_split(deltas, lo, mid, hi - 1);
    }
}

proof fn lemma_window_zero(deltas: Multiset<int>, lo: int, hi: int)
    requires
        forall|x: int| lo <= x < hi ==> deltas.count(x) == 0,
    ensures
        window_total(deltas, lo, hi) == 0,
    decreases hi - lo,
{
    if hi > lo {
        lemma_window_zero(deltas, lo, hi - 1);
    }
}

/// Offsets that hold no votes do not change a window's total.
proof fn lemma_window_clip(deltas: Multiset<int>, lo: int, hi: int, low: int, high: int)
    requires
        forall|x: int| #[trigger] deltas.count(x) > 0 ==> low <= x < high,
        lo <= hi,
        (if lo < low { low } else { lo }) <= (if hi < high { hi } else { high }),
    ensures
        window_total(deltas, lo, hi) == window_total(
            deltas,
            if lo < low { low } else { lo },
            if hi < high { hi } else { high },
        ),
{
    let a = if lo < low { low } else { lo };
    let b = if hi < high { hi } else { high };
    lemma_window_split(deltas, lo, a, hi);
    lemma_window_split(deltas, a, b, hi);
    assert forall|x: int| lo <= x < a implies deltas.count(x) == 0 by {
        if deltas.count(x) > 0 {
            assert(low <= x);
        }
    }
    lemma_window_zero(deltas, lo, a);
    assert forall|x: int| b <= x < hi implies deltas.count(x) == 0 by {
        if deltas.count(x) > 0 {
            assert(x < high);
        }
    }
    lemma_window_zero(deltas, b, hi);
}


pub open spec fn frames_at_most(refs: Seq<RefLandmark>, query: Seq<QueryLandmark>, m: int) -> bool {
    &&& forall|i: int| 0 <= i < refs.len() ==> #[trigger] refs[i].r_frame <= m
    &&& forall|j: int| 0 <= j < query.len() ==> #[trigger] query[j].q_frame <= m
}

/// The number of reference landmarks from `start` on that share the hash of
/// `rs[start]`.
fn ref_run_end(rs: &Vec<RefLandmark>, start: usize) -> (end: usize)
    requires
        start < rs@.len(),
    ensures
        start < end <= rs@.len(),
        forall|k: int| start <= k < end ==> #[trigger] rs@[k].hash == rs@[start as int].hash,
        end < rs@.len() ==> rs@[end as int].hash != rs@[start as int].hash,
{
    let h = rs[start].hash;
    let mut end = start;
    while end < rs.len() && rs[end].hash == h
        invariant
            start <= end <= rs@.len(),
            end == start ==> end < rs@.len(),
            h == rs@[start as int].hash,
            forall|k: int| start <= k < end ==> #[trigger] rs@[k].hash == h,
        decreases rs@.len() - end,
    {
        end = end + 1;
    }
    end
}

fn query_run_end(qs: &Vec<QueryLandmark>, start: usize) -> (end: usize)
    requires
        start < qs@.len(),
    ensures
        start < end <= qs@.len(),
        forall|k: int| start <= k < end ==> #[trigger] qs@[k].hash == qs@[start as int].hash,
        end < qs@.len() ==> qs@[end as int].hash != qs@[start as int].hash,
{
    let h = qs[start].hash;
    let mut end = start;
    while end < qs.len() && qs[end].hash == h
        invariant
            start <= end <= qs@.len(),
            end == start ==> end < qs@.len(),
            h == qs@[start as int].hash,
            forall|k: int| start <= k < end ==> #[trigger] qs@[k].hash == h,
        decreases qs@.len() - end,
    {
        end = end + 1;
    }
    end
}

proof fn lemma_delta_term_keyed(refs_all: Seq<RefLandmark>, max_occurrences: usize)
    ensures
        hash_keyed(delta_term(refs_all, max_occurrences)),
{
}

/// The reference landmarks of a hash group are exactly those with that hash,
/// so the group size is the hash's count.
proof fn lemma_group_count(
    rs: Seq<RefLandmark>,
    qs: Seq<QueryLandmark>,
    refs_all: Seq<RefLandmark>,
    ri: int,
    qi: int,
    re: int,
    h: u32,
)
    requires
        refs_sorted_by_hash(rs),
        separated(rs, qs, ri, qi),
        rs.to_multiset() =~= refs_all.to_multiset(),
        0 <= ri < re <= rs.len(),
        0 <= qi < qs.len(),
        qs[qi].hash == h,
        forall|k: int| ri <= k < re ==> #[trigger] rs[k].hash == h,
        re < rs.len() ==> rs[re].hash != h,
    ensures
        hash_count(refs_all, h) == re - ri,
{
    assert forall|k: int| 0 <= k < ri implies #[trigger] rs[k].hash != h by {
        assert(rs[k].hash < qs[qi].hash);
    }
    assert forall|k: int| re <= k < rs.len() implies #[trigger] rs[k].hash != h by {
        assert(rs[re - 1].hash <= rs[re].hash);
        assert(rs[re].hash <= rs[k].hash);
    }
    lemma_hash_count_run(rs, ri, re, h);
    lemma_bag_sum_perm(rs, refs_all, |r: RefLandmark| Multiset::singleton(r.hash));
}

/// What the merge join has counted before the pair `(r_idx, q_idx)` of a
/// hash group, together with that pair's vote, lies within the full sum.
proof fn lemma_partial_within<B>(
    rs: Seq<RefLandmark>,
    qs: Seq<QueryLandmark>,
    g: spec_fn(RefLandmark, QueryLandmark) -> Multiset<B>,
    r_start: int,
    r_end: int,
    q_start: int,
    q_end: int,
    r_idx: int,
    q_idx: int,
)
    requires
        0 <= r_start <= r_idx < r_end <= rs.len(),
        0 <= q_start <= q_idx < q_end <= qs.len(),
        pair_bag(rs.take(r_end), qs, g) == pair_bag(rs.take(r_start), qs, g).add(
            pair_bag(rs.subrange(r_start, r_end), qs.subrange(q_start, q_end), g),
        ),
    ensures
        ({
            let done = pair_bag(rs.take(r_start), qs, g).add(
                pair_bag(rs.subrange(r_start, r_idx), qs.subrange(q_start, q_end), g),
            ).add(pair_bag(seq![rs[r_idx]], qs.subrange(q_start, q_idx), g)).add(
                g(rs[r_idx], qs[q_idx]),
            );
            let full = pair_bag(rs, qs, g);
            &&& forall|x: B| #[trigger] done.count(x) <= full.count(x)
            &&& done.len() <= full.len()
        }),
{
    let r = rs[r_idx];
    let q = qs[q_idx];
    let gr = rs.subrange(r_start, r_end);
    let gq = qs.subrange(q_start, q_end);
    let i = r_idx - r_start;
    let j = q_idx - q_start;
    assert(rs =~= rs.take(r_end) + rs.skip(r_end));
    crate::bag::lemma_pair_bag_concat_r(rs.take(r_end), rs.skip(r_end), qs, g);
    assert(gr =~= (rs.subrange(r_start, r_idx) + seq![r]) + gr.skip(i + 1));
    crate::bag::lemma_pair_bag_concat_r(rs.subrange(r_start, r_idx) + seq![r], gr.skip(i + 1), gq, g);
    crate::bag::lemma_pair_bag_concat_r(rs.subrange(r_start, r_idx), seq![r], gq, g);
    assert(gq =~= (qs.subrange(q_start, q_idx) + seq![q]) + gq.skip(j + 1));
    crate::bag::lemma_pair_bag_concat_q(seq![r], qs.subrange(q_start, q_idx) + seq![q], gq.skip(j + 1), g);
    crate::bag::lemma_pair_bag_concat_q(seq![r], qs.subrange(q_start, q_idx), seq![q], g);
    crate::bag::lemma_pair_bag_single(r, q, g);
}

/// Pass 1 of the matching engine: counts, for every quantized offset, the
/// candidate pairs that vote for it. `counters[k]` holds the votes for the
/// offset `k - offset_bias`.
fn count_offset_votes(
    rs: &Vec<RefLandmark>,
    qs: &Vec<QueryLandmark>,
    max_occurrences: usize,
    offset_bias: usize,
    frames_span: usize,
    Ghost(refs_all): Ghost<Seq<RefLandmark>>,
) -> (res: (Vec<u32>, usize))
    requires
        refs_sorted_by_hash(rs@),
        queries_sorted_by_hash(qs@),
        rs@.to_multiset() =~= refs_all.to_multiset(),
        2 <= offset_bias <= MAX_FRAME + 2,
        frames_span == 2 * offset_bias + 2,
        frames_at_most(rs@, qs@, offset_bias - 2),
        forall|d: int|
            #[trigger] pair_bag(rs@, qs@, delta_term(refs_all, max_occurrences)).count(d)
                <= u32::MAX,
        pair_bag(rs@, qs@, delta_term(refs_all, max_occurrences)).len() <= usize::MAX,
    ensures
        res.0@.len() == frames_span,
        forall|k: int|
            0 <= k < frames_span ==> #[trigger] res.0@[k] == pair_bag(
                rs@,
                qs@,
                delta_term(refs_all, max_occurrences),
            ).count(k - offset_bias),
        res.1 == pair_bag(rs@, qs@, delta_term(refs_all, max_occurrences)).len(),
{
    let ghost g = delta_term(refs_all, max_occurrences);
    let ghost full = pair_bag(rs@, qs@, g);
    let ghost off = offset_bias as int;
    let mut counters: Vec<u32> = Vec::new();
    let mut k: usize = 0;
    while k < frames_span
        invariant
            k <= frames_span,
            counters@.len() == k,
            forall|x: int| 0 <= x < k ==> #[trigger] counters@[x] == 0,
        decreases frames_span - k,
    {
        counters.push(0);
        k = k + 1;
    }
    let r_len = rs.len();
    let q_len = qs.len();
    let mut r_i: usize = 0;
    let mut q_i: usize = 0;
    let mut total: usize = 0;
    proof {
        lemma_separated_start(rs@, qs@);
        lemma_delta_term_keyed(refs_all, max_occurrences);
        assert(rs@.take(0) =~= Seq::<RefLandmark>::empty());
        assert(pair_bag(rs@.take(0), qs@, g) =~= Multiset::<int>::empty());
    }
    while r_i < r_len && q_i < q_len
        invariant
            r_len == rs@.len(),
            q_len == qs@.len(),
            r_i <= r_len,
            q_i <= q_len,
            refs_sorted_by_hash(rs@),
            queries_sorted_by_hash(qs@),
            rs@.to_multiset() =~= refs_all.to_multiset(),
            2 <= offset_bias <= MAX_FRAME + 2,
            frames_span == 2 * offset_bias + 2,
            frames_at_most(rs@, qs@, offset_bias - 2),
            g == delta_term(refs_all, max_occurrences),
            full == pair_bag(rs@, qs@, g),
            forall|d: int| #[trigger] full.count(d) <= u32::MAX,
            full.len() <= usize::MAX,
            hash_keyed(g),
            off == offset_bias,
            separated(rs@, qs@, r_i as int, q_i as int),
            counters@.len() == frames_span,
            forall|x: int|
                0 <= x < frames_span ==> #[trigger] counters@[x] == pair_bag(
                    rs@.take(r_i as int),
                    qs@,
                    g,
                ).count(x - off),
            total == pair_bag(rs@.take(r_i as int), qs@, g).len(),
        decreases r_len - r_i + q_len - q_i,
    {
        let r_hash = rs[r_i].hash;
        let q_hash = qs[q_i].hash;
        if r_hash < q_hash {
            proof {
                lemma_skip_ref(rs@, qs@, r_i as int, q_i as int, g);
            }
            r_i = r_i + 1;
            continue;
        }
        if q_hash < r_hash {
            proof {
                lemma_skip_query(rs@, qs@, r_i as int, q_i as int);
            }
            q_i = q_i + 1;
            continue;
        }
        let r_start = r_i;
        let r_end = ref_run_end(rs, r_start);
        let q_start = q_i;
        let q_end = query_run_end(qs, q_start);
        let ref_count = r_end - r_start;
        let ghost base = pair_bag(rs@.take(r_start as int), qs@, g);
        let ghost group_q = qs@.subrange(q_start as int, q_end as int);
        proof {
            lemma_group(
                rs@,
                qs@,
                r_start as int,
                q_start as int,
                r_end as int,
                q_end as int,
                r_hash,
                g,
            );
            lemma_group_count(
                rs@,
                qs@,
                refs_all,
                r_start as int,
                q_start as int,
                r_end as int,
                r_hash,
            );
        }
        r_i = r_end;
        q_i = q_end;
        if ref_count > max_occurrences {
            proof {
                let gr = rs@.subrange(r_start as int, r_end as int);
                assert forall|i: int, j: int|
                    0 <= i < gr.len() && 0 <= j < group_q.len() implies g(
                    #[trigger] gr[i],
                    #[trigger] group_q[j],
                ) =~= Multiset::<int>::empty() by {
                    assert(gr[i] == rs@[r_start + i]);
                }
                lemma_pair_bag_empty(gr, group_q, g);
            }
            continue;
        }
        let mut r_idx = r_start;
        proof {
            assert(rs@.subrange(r_start as int, r_start as int) =~= Seq::<RefLandmark>::empty());
            assert(pair_bag(
                rs@.subrange(r_start as int, r_start as int),
                group_q,
                g,
            ) =~= Multiset::<int>::empty());
        }
        while r_idx < r_end
            invariant
                r_start <= r_idx <= r_end <= r_len,
                q_start < q_end <= q_len,
                r_len == rs@.len(),
                q_len == qs@.len(),
                ref_count == r_end - r_start,
                ref_count <= max_occurrences,
                hash_count(refs_all, r_hash) == ref_count,
                forall|k: int| r_start <= k < r_end ==> #[trigger] rs@[k].hash == r_hash,
                forall|k: int| q_start <= k < q_end ==> #[trigger] qs@[k].hash == r_hash,
                group_q == qs@.subrange(q_start as int, q_end as int),
                2 <= offset_bias <= MAX_FRAME + 2,
                frames_span == 2 * offset_bias + 2,
                frames_at_most(rs@, qs@, offset_bias - 2),
                g == delta_term(refs_all, max_occurrences),
                full == pair_bag(rs@, qs@, g),
                forall|d: int| #[trigger] full.count(d) <= u32::MAX,
                full.len() <= usize::MAX,
                base == pair_bag(rs@.take(r_start as int), qs@, g),
                pair_bag(rs@.take(r_end as int), qs@, g) == base.add(
                    pair_bag(rs@.subrange(r_start as int, r_end as int), group_q, g),
                ),
                off == offset_bias,
                counters@.len() == frames_span,
                forall|x: int|
                    0 <= x < frames_span ==> #[trigger] counters@[x] == base.add(
                        pair_bag(rs@.subrange(r_start as int, r_idx as int), group_q, g),
                    ).count(x - off),
                total == base.add(
                    pair_bag(rs@.subrange(r_start as int, r_idx as int), group_q, g),
                ).len(),
            decreases r_end - r_idx,
        {
            let r = rs[r_idx];
            let r_frame = r.r_frame as i32;
            let ghost before_r = base.add(
                pair_bag(rs@.subrange(r_start as int, r_idx as int), group_q, g),
            );
            let mut q_idx = q_start;
            proof {
                assert(qs@.subrange(q_start as int, q_start as int) =~= Seq::<QueryLandmark>::empty());
                lemma_pair_bag_empty(seq![r], qs@.subrange(q_start as int, q_start as int), g);
            }
            while q_idx < q_end
                invariant
                    r_start <= r_idx < r_end <= r_len,
                    q_start <= q_idx <= q_end <= q_len,
                    r_len == rs@.len(),
                    q_len == qs@.len(),
                    r == rs@[r_idx as int],
                    r_frame == r.r_frame,
                    r.hash == r_hash,
                    ref_count == r_end - r_start,
                    ref_count <= max_occurrences,
                    hash_count(refs_all, r_hash) == ref_count,
                    forall|k: int| q_start <= k < q_end ==> #[trigger] qs@[k].hash == r_hash,
                    group_q == qs@.subrange(q_start as int, q_end as int),
                    2 <= offset_bias <= MAX_FRAME + 2,
                    frames_span == 2 * offset_bias + 2,
                    frames_at_most(rs@, qs@, offset_bias - 2),
                    g == delta_term(refs_all, max_occurrences),
                    full == pair_bag(rs@, qs@, g),
                    forall|d: int| #[trigger] full.count(d) <= u32::MAX,
                    full.len() <= usize::MAX,
                    base == pair_bag(rs@.take(r_start as int), qs@, g),
                    pair_bag(rs@.take(r_end as int), qs@, g) == base.add(
                        pair_bag(rs@.subrange(r_start as int, r_end as int), group_q, g),
                    ),
                    before_r == base.add(
                        pair_bag(rs@.subrange(r_start as int, r_idx as int), group_q, g),
                    ),
                    off == offset_bias,
                    counters@.len() == frames_span,
                    forall|x: int|
                        0 <= x < frames_span ==> #[trigger] counters@[x] == before_r.add(
                            pair_bag(seq![r], qs@.subrange(q_start as int, q_idx as int), g),
                        ).count(x - off),
                    total == before_r.add(
                        pair_bag(seq![r], qs@.subrange(q_start as int, q_idx as int), g),
                    ).len(),
                decreases q_end - q_idx,
            {
                let q = qs[q_idx];
                let q_frame = q.q_frame as i32;
                let delta = r_frame - q_frame;
                let delta_q = quantize_offset(delta);
                proof {
                    lemma_quantize_bounds(delta as int, off - 2);
                    lemma_partial_within(
                        rs@,
                        qs@,
                        g,
                        r_start as int,
                        r_end as int,
                        q_start as int,
                        q_end as int,
                        r_idx as int,
                        q_idx as int,
                    );
                    assert(is_candidate(refs_all, max_occurrences, r, q));
                    assert(g(r, q) =~= Multiset::singleton(pair_delta(r, q)));
                    assert(pair_delta(r, q) == delta_q as int);
                    let done = before_r.add(
                        pair_bag(seq![r], qs@.subrange(q_start as int, q_idx as int), g),
                    ).add(g(r, q));
                    assert(done.count(delta_q as int) <= full.count(delta_q as int));
                }
                let delta_idx = (delta_q + offset_bias as i32) as usize;
                counters.set(delta_idx, counters[delta_idx] + 1);
                total = total + 1;
                proof {
                    let sub = qs@.subrange(q_start as int, q_idx as int);
                    assert(qs@.subrange(q_start as int, q_idx + 1) =~= sub.push(q));
                    lemma_step_query(r, sub, q, g);
                }
                q_idx = q_idx + 1;
            }
            proof {
                let sub = rs@.subrange(r_start as int, r_idx as int);
                assert(rs@.subrange(r_start as int, r_idx + 1) =~= sub.push(r));
                assert(qs@.subrange(q_start as int, q_end as int) == group_q);
                lemma_step_ref(sub, r, group_q, g);
            }
            r_idx = r_idx + 1;
        }
    }
    proof {
        lemma_finish(rs@, qs@, r_i as int, q_i as int, g);
    }
    (counters, total)
}

/// Marks each offset slot as warm or not: slot `i` stands for the offset
/// `i - offset_bias`, and is warm when the votes of the slots within
/// `window_bins / 2` of it (clipped to the slots) reach `threshold`.
fn warm_slots(
    counters: &Vec<u32>,
    window_bins: usize,
    threshold: u32,
    offset_bias: usize,
    Ghost(deltas): Ghost<Multiset<int>>,
) -> (warm: Vec<bool>)
    requires
        counters@.len() < 0x1_0000_0000,
        forall|x: int|
            0 <= x < counters@.len() ==> #[trigger] counters@[x] == deltas.count(x - offset_bias),
        forall|d: int|
            #[trigger] deltas.count(d) > 0 ==> 0 <= d + offset_bias < counters@.len(),
    ensures
        warm@.len() == counters@.len(),
        forall|i: int|
            0 <= i < counters@.len() ==> #[trigger] warm@[i] == is_warm(
                deltas,
                window_bins,
                threshold,
                i - offset_bias,
            ),
{
    let frames_span = counters.len();
    let ghost off = offset_bias as int;
    let mut prefix_sum: Vec<u64> = Vec::new();
    prefix_sum.push(0);
    let mut i: usize = 0;
    while i < frames_span
        invariant
            frames_span == counters@.len() < 0x1_0000_0000,
            i <= frames_span,
            prefix_sum@.len() == i + 1,
            forall|x: int|
                0 <= x < frames_span ==> #[trigger] counters@[x] == deltas.count(x - off),
            forall|k: int|
                0 <= k <= i ==> #[trigger] prefix_sum@[k] == window_total(deltas, -off, k - off),
            forall|k: int| 0 <= k <= i ==> #[trigger] prefix_sum@[k] <= k * 0xFFFF_FFFF,
        decreases frames_span - i,
    {
        let next = prefix_sum[i] + counters[i] as u64;
        prefix_sum.push(next);
        proof {
            assert(window_total(deltas, -off, i + 1 - off) == window_total(deltas, -off, i - off)
                + deltas.count(i - off));
        }
        i = i + 1;
    }
    let half_w = window_bins / 2;
    let mut warm: Vec<bool> = Vec::new();
    let mut i: usize = 0;
    while i < frames_span
        invariant
            frames_span == counters@.len(),
            i <= frames_span,
            half_w == window_bins / 2,
            prefix_sum@.len() == frames_span + 1,
            forall|k: int|
                0 <= k <= frames_span ==> #[trigger] prefix_sum@[k] == window_total(
                    deltas,
                    -off,
                    k - off,
                ),
            forall|d: int| #[trigger] deltas.count(d) > 0 ==> 0 <= d + off < frames_span,
            warm@.len() == i,
            forall|k: int|
                0 <= k < i ==> #[trigger] warm@[k] == is_warm(deltas, window_bins, threshold, k - off),
        decreases frames_span - i,
    {
        let left = if i >= half_w {
            i - half_w
        } else {
            0
        };
        let right = if half_w < frames_span - i {
            i + half_w + 1
        } else {
            frames_span
        };
        proof {
            lemma_window_split(deltas, -off, left - off, right - off);
            lemma_window_clip(
                deltas,
                i - off - half_w,
                i - off + half_w + 1,
                -off,
                frames_span - off,
            );
        }
        let win_sum = prefix_sum[right] - prefix_sum[left];
        warm.push(win_sum >= threshold as u64);
        i = i + 1;
    }
    warm
}


proof fn lemma_warm_term_keyed(
    refs_all: Seq<RefLandmark>,
    max_occurrences: usize,
    deltas: Multiset<int>,
    window_bins: usize,
    threshold: u32,
)
    ensures
        hash_keyed(warm_term(refs_all, max_occurrences, deltas, window_bins, threshold)),
{
}

/// Pass 2 of the matching engine: emits the match pair of every candidate
/// pair whose offset slot is warm, group by group in hash order.
fn collect_warm_pairs(
    rs: &Vec<RefLandmark>,
    qs: &Vec<QueryLandmark>,
    max_occurrences: usize,
    warm: &Vec<bool>,
    offset_bias: usize,
    Ghost(refs_all): Ghost<Seq<RefLandmark>>,
    Ghost(deltas): Ghost<Multiset<int>>,
    Ghost(window_bins): Ghost<usize>,
    Ghost(threshold): Ghost<u32>,
) -> (matches: Vec<MatchPair>)
    requires
        refs_sorted_by_hash(rs@),
        queries_sorted_by_hash(qs@),
        rs@.to_multiset() =~= refs_all.to_multiset(),
        2 <= offset_bias <= MAX_FRAME + 2,
        warm@.len() == 2 * offset_bias + 2,
        frames_at_most(rs@, qs@, offset_bias - 2),
        forall|i: int|
            0 <= i < warm@.len() ==> #[trigger] warm@[i] == is_warm(
                deltas,
                window_bins,
                threshold,
                i - offset_bias,
            ),
    ensures
        matches@.to_multiset() =~= pair_bag(
            rs@,
            qs@,
            warm_term(refs_all, max_occurrences, deltas, window_bins, threshold),
        ),
{
    let ghost g = warm_term(refs_all, max_occurrences, deltas, window_bins, threshold);
    let ghost off = offset_bias as int;
    let r_len = rs.len();
    let q_len = qs.len();
    let mut matches: Vec<MatchPair> = Vec::new();
    let mut r_i: usize = 0;
    let mut q_i: usize = 0;
    proof {
        lemma_separated_start(rs@, qs@);
        lemma_warm_term_keyed(refs_all, max_occurrences, deltas, window_bins, threshold);
        assert(rs@.take(0) =~= Seq::<RefLandmark>::empty());
        assert(pair_bag(rs@.take(0), qs@, g) =~= Multiset::<MatchPair>::empty());
    }
    while r_i < r_len && q_i < q_len
        invariant
            r_len == rs@.len(),
            q_len == qs@.len(),
            r_i <= r_len,
            q_i <= q_len,
            refs_sorted_by_hash(rs@),
            queries_sorted_by_hash(qs@),
            rs@.to_multiset() =~= refs_all.to_multiset(),
            2 <= offset_bias <= MAX_FRAME + 2,
            warm@.len() == 2 * offset_bias + 2,
            frames_at_most(rs@, qs@, offset_bias - 2),
            forall|i: int|
                0 <= i < warm@.len() ==> #[trigger] warm@[i] == is_warm(
                    deltas,
                    window_bins,
                    threshold,
                    i - off,
                ),
            g == warm_term(refs_all, max_occurrences, deltas, window_bins, threshold),
            hash_keyed(g),
            off == offset_bias,
            separated(rs@, qs@, r_i as int, q_i as int),
            matches@.to_multiset() =~= pair_bag(rs@.take(r_i as int), qs@, g),
        decreases r_len - r_i + q_len - q_i,
    {
        let r_hash = rs[r_i].hash;
        let q_hash = qs[q_i].hash;
        if r_hash < q_hash {
            proof {
                lemma_skip_ref(rs@, qs@, r_i as int, q_i as int, g);
            }
            r_i = r_i + 1;
            continue;
        }
        if q_hash < r_hash {
            proof {
                lemma_skip_query(rs@, qs@, r_i as int, q_i as int);
            }
            q_i = q_i + 1;
            continue;
        }
        let r_start = r_i;
        let r_end = ref_run_end(rs, r_start);
        let q_start = q_i;
        let q_end = query_run_end(qs, q_start);
        let ref_count = r_end - r_start;
        let ghost base = pair_bag(rs@.take(r_start as int), qs@, g);
        let ghost group_q = qs@.subrange(q_start as int, q_end as int);
        proof {
            lemma_group(
                rs@,
                qs@,
                r_start as int,
                q_start as int,
                r_end as int,
                q_end as int,
                r_hash,
                g,
            );
            lemma_group_count(
                rs@,
                qs@,
                refs_all,
                r_start as int,
                q_start as int,
                r_end as int,
                r_hash,
            );
        }
        r_i = r_end;
        q_i = q_end;
        if ref_count > max_occurrences {
            proof {
                let gr = rs@.subrange(r_start as int, r_end as int);
                assert forall|i: int, j: int|
                    0 <= i < gr.len() && 0 <= j < group_q.len() implies g(
                    #[trigger] gr[i],
                    #[trigger] group_q[j],
                ) =~= Multiset::<MatchPair>::empty() by {
                    assert(gr[i] == rs@[r_start + i]);
                }
                lemma_pair_bag_empty(gr, group_q, g);
            }
            continue;
        }
        let mut r_idx = r_start;
        proof {
            assert(rs@.subrange(r_start as int, r_start as int) =~= Seq::<RefLandmark>::empty());
            assert(pair_bag(
                rs@.subrange(r_start as int, r_start as int),
                group_q,
                g,
            ) =~= Multiset::<MatchPair>::empty());
        }
        while r_idx < r_end
            invariant
                r_start <= r_idx <= r_end <= r_len,
                q_start < q_end <= q_len,
                r_len == rs@.len(),
                q_len == qs@.len(),
                ref_count == r_end - r_start,
                ref_count <= max_occurrences,
                hash_count(refs_all, r_hash) == ref_count,
                forall|k: int| r_start <= k < r_end ==> #[trigger] rs@[k].hash == r_hash,
                forall|k: int| q_start <= k < q_end ==> #[trigger] qs@[k].hash == r_hash,
                group_q == qs@.subrange(q_start as int, q_end as int),
                2 <= offset_bias <= MAX_FRAME + 2,
                warm@.len() == 2 * offset_bias + 2,
                frames_at_most(rs@, qs@, offset_bias - 2),
                forall|i: int|
                    0 <= i < warm@.len() ==> #[trigger] warm@[i] == is_warm(
                        deltas,
                        window_bins,
                        threshold,
                        i - off,
                    ),
                g == warm_term(refs_all, max_occurrences, deltas, window_bins, threshold),
                off == offset_bias,
                matches@.to_multiset() =~= base.add(
                    pair_bag(rs@.subrange(r_start as int, r_idx as int), group_q, g),
                ),
            decreases r_end - r_idx,
        {
            let r = rs[r_idx];
            let r_frame = r.r_frame as i32;
            let ghost before_r = base.add(
                pair_bag(rs@.subrange(r_start as int, r_idx as int), group_q, g),
            );
            let mut q_idx = q_start;
            proof {
                assert(qs@.subrange(q_start as int, q_start as int) =~= Seq::<QueryLandmark>::empty());
                lemma_pair_bag_empty(seq![r], qs@.subrange(q_start as int, q_start as int), g);
            }
            while q_idx < q_end
                invariant
                    r_start <= r_idx < r_end <= r_len,
                    q_start <= q_idx <= q_end <= q_len,
                    r_len == rs@.len(),
                    q_len == qs@.len(),
                    r == rs@[r_idx as int],
                    r_frame == r.r_frame,
                    r.hash == r_hash,
                    ref_count <= max_occurrences,
                    hash_count(refs_all, r_hash) == ref_count,
                    forall|k: int| q_start <= k < q_end ==> #[trigger] qs@[k].hash == r_hash,
                    2 <= offset_bias <= MAX_FRAME + 2,
                    warm@.len() == 2 * offset_bias + 2,
                    frames_at_most(rs@, qs@, offset_bias - 2),
                    forall|i: int|
                        0 <= i < warm@.len() ==> #[trigger] warm@[i] == is_warm(
                            deltas,
                            window_bins,
                            threshold,
                            i - off,
                        ),
                    g == warm_term(refs_all, max_occurrences, deltas, window_bins, threshold),
                    off == offset_bias,
                    matches@.to_multiset() =~= before_r.add(
                        pair_bag(seq![r], qs@.subrange(q_start as int, q_idx as int), g),
                    ),
                decreases q_end - q_idx,
            {
                let q = qs[q_idx];
                let q_frame = q.q_frame as i32;
                let delta = r_frame - q_frame;
                let delta_q = quantize_offset(delta);
                proof {
                    lemma_quantize_bounds(delta as int, off - 2);
                }
                let delta_idx = (delta_q + offset_bias as i32) as usize;
                let ghost before_q = matches@;
                if warm[delta_idx] {
                    matches.push(MatchPair { ref_idx: 0, delta_q, q_frame: q.q_frame });
                    proof {
                        vstd::seq_lib::to_multiset_build(before_q, MatchPair { ref_idx: 0, delta_q, q_frame: q.q_frame });
                    }
                }
                proof {
                    let sub = qs@.subrange(q_start as int, q_idx as int);
                    assert(qs@.subrange(q_start as int, q_idx + 1) =~= sub.push(q));
                    lemma_step_query(r, sub, q, g);
                    assert(is_candidate(refs_all, max_occurrences, r, q));
                    assert(pair_delta(r, q) == delta_q as int);
                    assert(warm@[delta_idx as int] == is_warm(
                        deltas,
                        window_bins,
                        threshold,
                        pair_delta(r, q),
                    ));
                    if warm@[delta_idx as int] {
                        assert(g(r, q) =~= Multiset::singleton(match_of(r, q)));
                    } else {
                        assert(g(r, q) =~= Multiset::<MatchPair>::empty());
                    }
                }
                q_idx = q_idx + 1;
            }
            proof {
                let sub = rs@.subrange(r_start as int, r_idx as int);
                assert(rs@.subrange(r_start as int, r_idx + 1) =~= sub.push(r));
                assert(qs@.subrange(q_start as int, q_end as int) == group_q);
                lemma_step_ref(sub, r, group_q, g);
            }
            r_idx = r_idx + 1;
        }
    }
    proof {
        lemma_finish(rs@, qs@, r_i as int, q_i as int, g);
    }
    matches
}

/// Sorts with rayon's `par_sort_unstable_by_key`, keyed by the hash. Rayon
/// documents it as an (unstable) sort of the slice by the key: the result is
/// a reordering of the input that is ordered by hash.
#[verifier::external_body]
fn par_sort_refs_by_hash(landmarks: &mut [RefLandmark])
    ensures
        final(landmarks)@.to_multiset() == old(landmarks)@.to_multiset(),
        final(landmarks)@.len() == old(landmarks)@.len(),
        refs_sorted_by_hash(final(landmarks)@),
{
    landmarks.par_sort_unstable_by_key(|l| l.hash);
}

/// Sorts with rayon's `par_sort_unstable_by_key`, keyed by the hash. Rayon
/// documents it as an (unstable) sort of the slice by the key: the result is
/// a reordering of the input that is ordered by hash.
#[verifier::external_body]
fn par_sort_queries_by_hash(landmarks: &mut [QueryLandmark])
    ensures
        final(landmarks)@.to_multiset() == old(landmarks)@.to_multiset(),
        final(landmarks)@.len() == old(landmarks)@.len(),
        queries_sorted_by_hash(final(landmarks)@),
{
    landmarks.par_sort_unstable_by_key(|l| l.hash);
}

/// Sorts reference landmarks by hash, in parallel.
pub fn radix_sort_ref_landmarks(landmarks: &mut [RefLandmark])
    ensures
        final(landmarks)@.to_multiset() == old(landmarks)@.to_multiset(),
        final(landmarks)@.len() == old(landmarks)@.len(),
        refs_sorted_by_hash(final(landmarks)@),
{
    par_sort_refs_by_hash(landmarks);
}

/// Sorts query landmarks by hash, in parallel.
pub fn radix_sort_query_landmarks(landmarks: &mut [QueryLandmark])
    ensures
        final(landmarks)@.to_multiset() == old(landmarks)@.to_multiset(),
        final(landmarks)@.len() == old(landmarks)@.len(),
        queries_sorted_by_hash(final(landmarks)@),
{
    par_sort_queries_by_hash(landmarks);
}


fn sorted_refs(v: Vec<RefLandmark>) -> (r: Vec<RefLandmark>)
    ensures
        r@.to_multiset() == v@.to_multiset(),
        r@.len() == v@.len(),
        refs_sorted_by_hash(r@),
{
    let mut v = v;
    radix_sort_ref_landmarks(v.as_mut_slice());
    v
}

fn sorted_queries(v: Vec<QueryLandmark>) -> (r: Vec<QueryLandmark>)
    ensures
        r@.to_multiset() == v@.to_multiset(),
        r@.len() == v@.len(),
        queries_sorted_by_hash(r@),
{
    let mut v = v;
    radix_sort_query_landmarks(v.as_mut_slice());
    v
}

/// Sorts both landmark vectors, potentially in parallel, with rayon's
/// `join`, which runs both closures and returns the pair of their results;
/// each closure only calls the verified sort above.
#[verifier::external_body]
fn sort_both_by_hash(refs: Vec<RefLandmark>, query: Vec<QueryLandmark>) -> (res: (
    Vec<RefLandmark>,
    Vec<QueryLandmark>,
))
    ensures
        res.0@.to_multiset() == refs@.to_multiset(),
        res.0@.len() == refs@.len(),
        refs_sorted_by_hash(res.0@),
        res.1@.to_multiset() == query@.to_multiset(),
        res.1@.len() == query@.len(),
        queries_sorted_by_hash(res.1@),
{
    rayon::join(|| sorted_refs(refs), || sorted_queries(query))
}

/// Sorts with std's `sort_unstable_by_key`, keyed by the tuple
/// `(ref_idx, delta_q, q_frame)`; std orders tuples of integers
/// lexicographically. The result is a reordering of the input in that order.
#[verifier::external_body]
fn sort_match_pairs(pairs: &mut Vec<MatchPair>)
    ensures
        final(pairs)@.to_multiset() == old(pairs)@.to_multiset(),
        final(pairs)@.len() == old(pairs)@.len(),
        match_pairs_sorted(final(pairs)@),
{
    pairs.sort_unstable_by_key(|m| (m.ref_idx, m.delta_q, m.q_frame));
}

/// The largest frame of any landmark (0 when there is none).
fn max_landmark_frame(refs: &Vec<RefLandmark>, query: &Vec<QueryLandmark>) -> (m: u32)
    ensures
        frames_at_most(refs@, query@, m as int),
        frames_bounded(refs@, query@) ==> m <= MAX_FRAME,
{
    let mut m: u32 = 0;
    let mut i: usize = 0;
    while i < refs.len()
        invariant
            i <= refs@.len(),
            forall|k: int| 0 <= k < i ==> #[trigger] refs@[k].r_frame <= m,
            m == 0 || exists|k: int| 0 <= k < i && #[trigger] refs@[k].r_frame == m,
        decreases refs@.len() - i,
    {
        if refs[i].r_frame > m {
            m = refs[i].r_frame;
        }
        i = i + 1;
    }
    let ghost m_ref = m;
    let mut j: usize = 0;
    while j < query.len()
        invariant
            j <= query@.len(),
            forall|k: int| 0 <= k < refs@.len() ==> #[trigger] refs@[k].r_frame <= m,
            forall|k: int| 0 <= k < j ==> #[trigger] query@[k].q_frame <= m,
            m == 0 || (exists|k: int| 0 <= k < refs@.len() && #[trigger] refs@[k].r_frame == m)
                || (exists|k: int| 0 <= k < j && #[trigger] query@[k].q_frame == m),
        decreases query@.len() - j,
    {
        if query[j].q_frame > m {
            m = query[j].q_frame;
        }
        j = j + 1;
    }
    m
}

/// The offsets that candidate pairs vote for lie within `[-m, m + 1]` when
/// no frame exceeds `m`.
proof fn lemma_delta_support(
    rs: Seq<RefLandmark>,
    qs: Seq<QueryLandmark>,
    refs_all: Seq<RefLandmark>,
    max_occurrences: usize,
    m: int,
)
    requires
        0 <= m,
        frames_at_most(rs, qs, m),
    ensures
        forall|d: int|
            #[trigger] pair_bag(rs, qs, delta_term(refs_all, max_occurrences)).count(d) > 0 ==> -m
                <= d <= m + 1,
{
    let g = delta_term(refs_all, max_occurrences);
    let p = |d: int| -m <= d <= m + 1;
    assert forall|i: int, j: int, v: int|
        0 <= i < rs.len() && 0 <= j < qs.len() && #[trigger] g(rs[i], qs[j]).count(v) > 0 implies p(
        v,
    ) by {
        assert(rs[i].r_frame <= m);
        assert(qs[j].q_frame <= m);
        lemma_quantize_bounds(rs[i].r_frame as int - qs[j].q_frame as int, m);
    }
    lemma_pair_bag_support(rs, qs, g, p);
}

/// The two-pass radix map matching engine with the sliding-window warm
/// filter.
///
/// Pass 1 merge-joins the hash-sorted landmarks and counts, for each
/// quantized offset, the candidate pairs that vote for it (pairs with equal
/// hashes whose hash occurs at most `max_occurrences` times among the
/// reference landmarks). Pass 2 emits a match pair for every candidate pair
/// whose offset is warm: the offsets within `window_bins / 2` of it hold at
/// least `threshold` votes. The match pairs come out sorted; the result also
/// holds the number of candidate pairs, the number of match pairs emitted and
/// the time taken. The votes for one offset are counted in 32 bits, so no
/// offset may gather more votes than that holds.
pub fn match_fingerprints_radix_map_warm_sliding_window(
    ref_landmarks: Vec<RefLandmark>,
    query_landmarks: Vec<QueryLandmark>,
    max_occurrences: usize,
    window_bins: usize,
    threshold: u32,
) -> (res: (Vec<MatchPair>, usize, usize, Duration))
    requires
        frames_bounded(ref_landmarks@, query_landmarks@),
        forall|d: int|
            #[trigger] candidate_deltas(ref_landmarks@, query_landmarks@, max_occurrences).count(d)
                <= u32::MAX,
        candidate_deltas(ref_landmarks@, query_landmarks@, max_occurrences).len() <= usize::MAX,
    ensures
        res.0@.to_multiset() =~= warm_matches(
            ref_landmarks@,
            query_landmarks@,
            max_occurrences,
            window_bins,
            threshold,
        ),
        match_pairs_sorted(res.0@),
        res.0@ == sorted_matches(
            warm_matches(ref_landmarks@, query_landmarks@, max_occurrences, window_bins, threshold),
        ),
        forall|i: int|
            0 <= i < res.0@.len() ==> (#[trigger] res.0@[i]).ref_idx == 0 && res.0@[i].delta_q % 2
                == 0 && res.0@[i].q_frame <= MAX_FRAME,
        res.1 == candidate_deltas(ref_landmarks@, query_landmarks@, max_occurrences).len(),
        res.2 == res.0@.len(),
{
    let match_start = clock_now();
    let ghost refs_all = ref_landmarks@;
    let ghost query_all = query_landmarks@;
    let max_frame = max_landmark_frame(&ref_landmarks, &query_landmarks);
    let offset_bias = max_frame as usize + 2;
    let frames_span = 2 * offset_bias + 2;
    let (ref_sorted, query_sorted) = sort_both_by_hash(ref_landmarks, query_landmarks);
    let ghost dt = delta_term(refs_all, max_occurrences);
    proof {
        assert(frames_at_most(ref_sorted@, query_sorted@, max_frame as int)) by {
            assert forall|i: int| 0 <= i < ref_sorted@.len() implies #[trigger] ref_sorted@[i].r_frame
                <= max_frame by {
                vstd::seq_lib::to_multiset_contains(ref_sorted@, ref_sorted@[i]);
                vstd::seq_lib::to_multiset_contains(refs_all, ref_sorted@[i]);
                assert(ref_sorted@.contains(ref_sorted@[i]));
            }
            assert forall|j: int| 0 <= j < query_sorted@.len() implies #[trigger] query_sorted@[
                j
            ].q_frame <= max_frame by {
                vstd::seq_lib::to_multiset_contains(query_sorted@, query_sorted@[j]);
                vstd::seq_lib::to_multiset_contains(query_all, query_sorted@[j]);
                assert(query_sorted@.contains(query_sorted@[j]));
            }
        }
        crate::bag::lemma_pair_bag_perm(ref_sorted@, refs_all, query_sorted@, query_all, dt);
    }
    let (counters, total_pass1_pairs) = count_offset_votes(
        &ref_sorted,
        &query_sorted,
        max_occurrences,
        offset_bias,
        frames_span,
        Ghost(refs_all),
    );
    let ghost deltas = candidate_deltas(refs_all, query_all, max_occurrences);
    proof {
        lemma_delta_support(ref_sorted@, query_sorted@, refs_all, max_occurrences, max_frame as int);
    }
    let warm = warm_slots(&counters, window_bins, threshold, offset_bias, Ghost(deltas));
    let mut matches_flat = collect_warm_pairs(
        &ref_sorted,
        &query_sorted,
        max_occurrences,
        &warm,
        offset_bias,
        Ghost(refs_all),
        Ghost(deltas),
        Ghost(window_bins),
        Ghost(threshold),
    );
    proof {
        crate::bag::lemma_pair_bag_perm(
            ref_sorted@,
            refs_all,
            query_sorted@,
            query_all,
            warm_term(refs_all, max_occurrences, deltas, window_bins, threshold),
        );
    }
    sort_match_pairs(&mut matches_flat);
    proof {
        lemma_warm_match_shape(refs_all, query_all, max_occurrences, window_bins, threshold);
        assert forall|i: int| 0 <= i < matches_flat@.len() implies (#[trigger] matches_flat@[i]).ref_idx
            == 0 && matches_flat@[i].delta_q % 2 == 0 && matches_flat@[i].q_frame <= MAX_FRAME by {
            vstd::seq_lib::to_multiset_contains(matches_flat@, matches_flat@[i]);
            assert(matches_flat@.contains(matches_flat@[i]));
            assert(matches_flat@.to_multiset() =~= warm_matches(
                refs_all,
                query_all,
                max_occurrences,
                window_bins,
                threshold,
            ));
            assert(warm_matches(refs_all, query_all, max_occurrences, window_bins, threshold).count(
                matches_flat@[i],
            ) > 0);
        }
    }
    proof {
        lemma_sorted_matches_unique(matches_flat@);
    }
    let elapsed = clock_elapsed(&match_start);
    let warm_pairs_emitted = matches_flat.len();
    (matches_flat, total_pass1_pairs, warm_pairs_emitted, elapsed)
}

/// Every warm match pair has reference index 0, an even offset, and the
/// query frame of a landmark.
pub proof fn lemma_warm_match_shape(
    refs: Seq<RefLandmark>,
    query: Seq<QueryLandmark>,
    max_occurrences: usize,
    window_bins: usize,
    threshold: u32,
)
    requires
        frames_bounded(refs, query),
    ensures
        forall|m: MatchPair|
            #[trigger] warm_matches(refs, query, max_occurrences, window_bins, threshold).count(m)
                > 0 ==> m.ref_idx == 0 && m.delta_q % 2 == 0 && m.q_frame <= MAX_FRAME,
{
    let g = warm_term(
        refs,
        max_occurrences,
        candidate_deltas(refs, query, max_occurrences),
        window_bins,
        threshold,
    );
    let p = |m: MatchPair| m.ref_idx == 0 && m.delta_q % 2 == 0 && m.q_frame <= MAX_FRAME;
    assert forall|i: int, j: int, v: MatchPair|
        0 <= i < refs.len() && 0 <= j < query.len() && #[trigger] g(refs[i], query[j]).count(v)
            > 0 implies p(v) by {
        assert(refs[i].r_frame <= MAX_FRAME);
        assert(query[j].q_frame <= MAX_FRAME);
        lemma_quantize_bounds(refs[i].r_frame as int - query[j].q_frame as int, MAX_FRAME as int);
    }
    lemma_pair_bag_support(refs, query, g, p);
}

/// `match_pair_le` is a total order.
pub proof fn lemma_match_pair_le_total()
    ensures
        vstd::relations::total_ordering(|a: MatchPair, b: MatchPair| match_pair_le(a, b)),
{
}

/// The sorted arrangement of a multiset of match pairs.
pub open spec fn sorted_matches(m: Multiset<MatchPair>) -> Seq<MatchPair> {
    choose|s: Seq<MatchPair>| s.to_multiset() == m && match_pairs_sorted(s)
}

/// A sorted sequence is the sorted arrangement of its elements: there is
/// only one.
pub proof fn lemma_sorted_matches_unique(s: Seq<MatchPair>)
    requires
        match_pairs_sorted(s),
    ensures
        sorted_matches(s.to_multiset()) == s,
{
    let leq = |a: MatchPair, b: MatchPair| match_pair_le(a, b);
    let t = sorted_matches(s.to_multiset());
    assert(s.to_multiset() == s.to_multiset() && match_pairs_sorted(s));
    lemma_match_pair_le_total();
    vstd::seq_lib::lemma_sorted_unique(s, t, leq);
}

/// Sorted by offset and frame: the order of the warm pairs, whose reference
/// index is always 0.
proof fn lemma_sorted_same_ref(s: Seq<MatchPair>)
    requires
        match_pairs_sorted(s),
        forall|i: int| 0 <= i < s.len() ==> (#[trigger] s[i]).ref_idx == 0,
    ensures
        crate::clusters::delta_frame_sorted(s),
{
    assert forall|i: int, j: int| 0 <= i <= j < s.len() implies s[i].delta_q < s[j].delta_q || (
    s[i].delta_q == s[j].delta_q && s[i].q_frame <= s[j].q_frame) by {
        assert(match_pair_le(s[i], s[j]));
        assert(s[i].ref_idx == 0 && s[j].ref_idx == 0);
    }
}

/// The radix map matching engine with its usual window: offsets within 10
/// of a warm offset, 20 votes. Returns the sorted warm match pairs and the
/// time taken.
pub fn match_fingerprints_radix_map(
    ref_landmarks: Vec<RefLandmark>,
    query_landmarks: Vec<QueryLandmark>,
    max_occurrences: usize,
) -> (res: (Vec<MatchPair>, Duration))
    requires
        frames_bounded(ref_landmarks@, query_landmarks@),
        forall|d: int|
            #[trigger] candidate_deltas(ref_landmarks@, query_landmarks@, max_occurrences).count(d)
                <= u32::MAX,
        candidate_deltas(ref_landmarks@, query_landmarks@, max_occurrences).len() <= usize::MAX,
    ensures
        res.0@.to_multiset() =~= warm_matches(
            ref_landmarks@,
            query_landmarks@,
            max_occurrences,
            21,
            20,
        ),
        match_pairs_sorted(res.0@),
        res.0@ == sorted_matches(warm_matches(ref_landmarks@, query_landmarks@, max_occurrences, 21, 20)),
{
    let (matches, _total, _warm, dur) = match_fingerprints_radix_map_warm_sliding_window(
        ref_landmarks,
        query_landmarks,
        max_occurrences,
        21,
        20,
    );
    (matches, dur)
}

/// The clusters of the warm match pairs: the engine's warm pairs, grouped
/// by offset and split where consecutive frames lie more than
/// `max_cluster_gap` apart (offset groups of fewer than three pairs give
/// none). These are the candidate segments that the caller then weighs by
/// duration and density and verifies spectrally.
pub fn match_clusters_radix_map(
    ref_landmarks: Vec<RefLandmark>,
    query_landmarks: Vec<QueryLandmark>,
    max_occurrences: usize,
    window_bins: usize,
    warm_threshold: u32,
    max_cluster_gap: u32,
) -> (out: Vec<DeltaCluster>)
    requires
        frames_bounded(ref_landmarks@, query_landmarks@),
        forall|d: int|
            #[trigger] candidate_deltas(ref_landmarks@, query_landmarks@, max_occurrences).count(d)
                <= u32::MAX,
        candidate_deltas(ref_landmarks@, query_landmarks@, max_occurrences).len() <= usize::MAX,
        max_cluster_gap <= u32::MAX - MAX_FRAME,
    ensures
        out@ == delta_clusters_of(
            sorted_matches(
                warm_matches(
                    ref_landmarks@,
                    query_landmarks@,
                    max_occurrences,
                    window_bins,
                    warm_threshold,
                ),
            ),
            max_cluster_gap,
        ),
{
    let ghost refs = ref_landmarks@;
    let ghost query = query_landmarks@;
    let (matches, _total, _warm, _dur) = match_fingerprints_radix_map_warm_sliding_window(
        ref_landmarks,
        query_landmarks,
        max_occurrences,
        window_bins,
        warm_threshold,
    );
    proof {
        lemma_sorted_same_ref(matches@);
        lemma_sorted_matches_unique(matches@);
        assert(matches@.to_multiset() == warm_matches(
            refs,
            query,
            max_occurrences,
            window_bins,
            warm_threshold,
        ));
    }
    extract_delta_clusters(&matches, max_cluster_gap)
}

/// With a threshold of 0 every offset is warm: the warm filter keeps one
/// match pair for every candidate pair.
pub proof fn lemma_threshold_zero_keeps_all(
    refs: Seq<RefLandmark>,
    query: Seq<QueryLandmark>,
    max_occurrences: usize,
    window_bins: usize,
)
    ensures
        warm_matches(refs, query, max_occurrences, window_bins, 0).len() == candidate_deltas(
            refs,
            query,
            max_occurrences,
        ).len(),
{
    let deltas = candidate_deltas(refs, query, max_occurrences);
    let g = warm_term(refs, max_occurrences, deltas, window_bins, 0);
    let h = delta_term(refs, max_occurrences);
    assert forall|i: int, j: int| 0 <= i < refs.len() && 0 <= j < query.len() implies #[trigger] g(
        refs[i],
        query[j],
    ).len() == h(refs[i], query[j]).len() by {
        assert(is_warm(deltas, window_bins, 0, pair_delta(refs[i], query[j])));
    }
    crate::bag::lemma_pair_bag_len_congr(refs, query, g, h);
}

/// A window over a smaller multiset of votes holds no more votes.
proof fn lemma_window_total_subset(d1: Multiset<int>, d2: Multiset<int>, lo: int, hi: int)
    requires
        d1.subset_of(d2),
    ensures
        window_total(d1, lo, hi) <= window_total(d2, lo, hi),
    decreases hi - lo,
{
    if hi > lo {
        lemma_window_total_subset(d1, d2, lo, hi - 1);
    }
}

/// Raising the threshold keeps only some of the warm match pairs: with
/// `t1 <= t2`, the pairs warm at `t2` are among those warm at `t1`.
pub proof fn lemma_warm_matches_threshold_monotone(
    refs: Seq<RefLandmark>,
    query: Seq<QueryLandmark>,
    max_occurrences: usize,
    window_bins: usize,
    t1: u32,
    t2: u32,
)
    requires
        t1 <= t2,
    ensures
        warm_matches(refs, query, max_occurrences, window_bins, t2).subset_of(
            warm_matches(refs, query, max_occurrences, window_bins, t1),
        ),
{
    let deltas = candidate_deltas(refs, query, max_occurrences);
    let g = warm_term(refs, max_occurrences, deltas, window_bins, t2);
    let h = warm_term(refs, max_occurrences, deltas, window_bins, t1);
    assert forall|i: int, j: int| 0 <= i < refs.len() && 0 <= j < query.len() implies (#[trigger] g(
        refs[i],
        query[j],
    )).subset_of(h(refs[i], query[j])) by {}
    crate::bag::lemma_pair_bag_subset(refs, query, g, h);
}

/// Letting more common hashes vote keeps every warm match pair: with
/// `m1 <= m2`, the candidate votes for `m1` are among those for `m2`, and the
/// pairs warm for `m1` are among those warm for `m2`.
pub proof fn lemma_warm_matches_occurrences_monotone(
    refs: Seq<RefLandmark>,
    query: Seq<QueryLandmark>,
    m1: usize,
    m2: usize,
    window_bins: usize,
    threshold: u32,
)
    requires
        m1 <= m2,
    ensures
        candidate_deltas(refs, query, m1).subset_of(candidate_deltas(refs, query, m2)),
        warm_matches(refs, query, m1, window_bins, threshold).subset_of(
            warm_matches(refs, query, m2, window_bins, threshold),
        ),
{
    let dg = delta_term(refs, m1);
    let dh = delta_term(refs, m2);
    assert forall|i: int, j: int| 0 <= i < refs.len() && 0 <= j < query.len() implies (#[trigger] dg(
        refs[i],
        query[j],
    )).subset_of(dh(refs[i], query[j])) by {}
    crate::bag::lemma_pair_bag_subset(refs, query, dg, dh);
    let d1 = candidate_deltas(refs, query, m1);
    let d2 = candidate_deltas(refs, query, m2);
    let g = warm_term(refs, m1, d1, window_bins, threshold);
    let h = warm_term(refs, m2, d2, window_bins, threshold);
    assert forall|i: int, j: int| 0 <= i < refs.len() && 0 <= j < query.len() implies (#[trigger] g(
        refs[i],
        query[j],
    )).subset_of(h(refs[i], query[j])) by {
        let d = pair_delta(refs[i], query[j]);
        let half = (window_bins / 2) as int;
        lemma_window_total_subset(d1, d2, d - half, d + half + 1);
    }
    crate::bag::lemma_pair_bag_subset(refs, query, g, h);
}

/// The engine does not depend on the order of its landmarks: reordering the
/// reference and the query landmarks leaves the candidate votes, the warm
/// match pairs and their sorted arrangement as they were.
pub proof fn lemma_engine_order_free(
    r1: Seq<RefLandmark>,
    r2: Seq<RefLandmark>,
    q1: Seq<QueryLandmark>,
    q2: Seq<QueryLandmark>,
    max_occurrences: usize,
    window_bins: usize,
    threshold: u32,
)
    requires
        r1.to_multiset() == r2.to_multiset(),
        q1.to_multiset() == q2.to_multiset(),
    ensures
        candidate_deltas(r1, q1, max_occurrences) == candidate_deltas(r2, q2, max_occurrences),
        warm_matches(r1, q1, max_occurrences, window_bins, threshold) == warm_matches(
            r2,
            q2,
            max_occurrences,
            window_bins,
            threshold,
        ),
        sorted_matches(warm_matches(r1, q1, max_occurrences, window_bins, threshold))
            == sorted_matches(warm_matches(r2, q2, max_occurrences, window_bins, threshold)),
{
    lemma_bag_sum_perm(r1, r2, |r: RefLandmark| Multiset::singleton(r.hash));
    assert(ref_hash_bag(r1) == ref_hash_bag(r2));
    let dt1 = delta_term(r1, max_occurrences);
    let dt2 = delta_term(r2, max_occurrences);
    assert(dt1 =~= dt2);
    crate::bag::lemma_pair_bag_perm(r1, r2, q1, q2, dt1);
    let deltas = candidate_deltas(r1, q1, max_occurrences);
    let w1 = warm_term(r1, max_occurrences, deltas, window_bins, threshold);
    let w2 = warm_term(r2, max_occurrences, deltas, window_bins, threshold);
    assert(w1 =~= w2);
    crate::bag::lemma_pair_bag_perm(r1, r2, q1, q2, w1);
}

proof fn lemma_window_holds(deltas: Multiset<int>, lo: int, hi: int, x: int)
    requires
        lo <= x < hi,
    ensures
        window_total(deltas, lo, hi) >= deltas.count(x),
{
    lemma_window_split(deltas, lo, x, hi);
    lemma_window_split(deltas, x, x + 1, hi);
}

proof fn lemma_window_holds_two(deltas: Multiset<int>, lo: int, hi: int, x: int, y: int)
    requires
        lo <= x < y < hi,
    ensures
        window_total(deltas, lo, hi) >= deltas.count(x) + deltas.count(y),
{
    lemma_window_split(deltas, lo, y, hi);
    lemma_window_holds(deltas, lo, y, x);
    lemma_window_holds(deltas, y, hi, y);
}

/// The votes of an offset and of any other offset at most `window_bins / 2`
/// away count together: when they reach `threshold`, both offsets are
/// warm. An offset with `threshold` votes of its own is warm.
pub proof fn lemma_neighbour_votes_warm(
    deltas: Multiset<int>,
    window_bins: usize,
    threshold: u32,
    d: int,
    e: int,
)
    requires
        d - e <= window_bins / 2,
        e - d <= window_bins / 2,
        d == e ==> deltas.count(d) >= threshold,
        d != e ==> deltas.count(d) + deltas.count(e) >= threshold,
    ensures
        is_warm(deltas, window_bins, threshold, d),
        is_warm(deltas, window_bins, threshold, e),
{
    let half = (window_bins / 2) as int;
    if d == e {
        lemma_window_holds(deltas, d - half, d + half + 1, d);
    } else if d < e {
        lemma_window_holds_two(deltas, d - half, d + half + 1, d, e);
        lemma_window_holds_two(deltas, e - half, e + half + 1, d, e);
    } else {
        lemma_window_holds_two(deltas, d - half, d + half + 1, e, d);
        lemma_window_holds_two(deltas, e - half, e + half + 1, e, d);
    }
}

/// An offset with no votes within `window_bins / 2` of it is not warm when
/// the threshold is positive.
pub proof fn lemma_no_nearby_votes_cold(
    deltas: Multiset<int>,
    window_bins: usize,
    threshold: u32,
    d: int,
)
    requires
        threshold > 0,
        forall|x: int|
            d - window_bins / 2 <= x <= d + window_bins / 2 ==> #[trigger] deltas.count(x) == 0,
    ensures
        !is_warm(deltas, window_bins, threshold, d),
{
    let half = (window_bins / 2) as int;
    lemma_window_zero(deltas, d - half, d + half + 1);
}

/// A candidate pair whose offset `d`, together with an offset `e` at most
/// `window_bins / 2` away, holds at least `threshold` candidate votes (or
/// `d` alone does, where `e == d`) is emitted as a match pair.
pub proof fn lemma_neighbour_votes_emitted(
    refs: Seq<RefLandmark>,
    query: Seq<QueryLandmark>,
    max_occurrences: usize,
    window_bins: usize,
    threshold: u32,
    i: int,
    j: int,
    e: int,
)
    requires
        0 <= i < refs.len(),
        0 <= j < query.len(),
        is_candidate(refs, max_occurrences, refs[i], query[j]),
        pair_delta(refs[i], query[j]) - e <= window_bins / 2,
        e - pair_delta(refs[i], query[j]) <= window_bins / 2,
        e == pair_delta(refs[i], query[j]) ==> candidate_deltas(refs, query, max_occurrences).count(
            e,
        ) >= threshold,
        e != pair_delta(refs[i], query[j]) ==> candidate_deltas(refs, query, max_occurrences).count(
            pair_delta(refs[i], query[j]),
        ) + candidate_deltas(refs, query, max_occurrences).count(e) >= threshold,
    ensures
        warm_matches(refs, query, max_occurrences, window_bins, threshold).count(
            match_of(refs[i], query[j]),
        ) > 0,
{
    let deltas = candidate_deltas(refs, query, max_occurrences);
    let d = pair_delta(refs[i], query[j]);
    lemma_neighbour_votes_warm(deltas, window_bins, threshold, d, e);
    let g = warm_term(refs, max_occurrences, deltas, window_bins, threshold);
    let v = match_of(refs[i], query[j]);
    assert(g(refs[i], query[j]).count(v) == 1);
    let inner = |q: QueryLandmark| g(refs[i], q);
    crate::bag::lemma_bag_sum_remove(query, j, inner);
    let outer = |r: RefLandmark| bag_sum(query, |q: QueryLandmark| g(r, q));
    crate::bag::lemma_bag_sum_remove(refs, i, outer);
    assert(outer(refs[i]) == bag_sum(query, inner)) by {
        assert((|q: QueryLandmark| g(refs[i], q)) =~= inner);
    }
    assert(warm_matches(refs, query, max_occurrences, window_bins, threshold) == bag_sum(refs, outer));
}

/// Every emitted match pair's offset is warm: the votes within
/// `window_bins / 2` of it reach the threshold.
pub proof fn lemma_emitted_offsets_warm(
    refs: Seq<RefLandmark>,
    query: Seq<QueryLandmark>,
    max_occurrences: usize,
    window_bins: usize,
    threshold: u32,
)
    requires
        frames_bounded(refs, query),
    ensures
        forall|m: MatchPair|
            #[trigger] warm_matches(refs, query, max_occurrences, window_bins, threshold).count(m)
                > 0 ==> is_warm(
                candidate_deltas(refs, query, max_occurrences),
                window_bins,
                threshold,
                m.delta_q as int,
            ),
{
    let deltas = candidate_deltas(refs, query, max_occurrences);
    let g = warm_term(refs, max_occurrences, deltas, window_bins, threshold);
    let p = |m: MatchPair| is_warm(deltas, window_bins, threshold, m.delta_q as int);
    assert forall|i: int, j: int, v: MatchPair|
        0 <= i < refs.len() && 0 <= j < query.len() && #[trigger] g(refs[i], query[j]).count(v)
            > 0 implies p(v) by {
        assert(refs[i].r_frame <= MAX_FRAME);
        assert(query[j].q_frame <= MAX_FRAME);
        lemma_quantize_bounds(refs[i].r_frame as int - query[j].q_frame as int, MAX_FRAME as int);
    }
    lemma_pair_bag_support(refs, query, g, p);
}

} // verus!
