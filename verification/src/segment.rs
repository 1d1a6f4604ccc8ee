//! Checks on a candidate cut segment: snapping its boundaries to the
//! quietest nearby frame, and verifying it frame by frame against the
//! reference episode's spectral peaks.

use vstd::prelude::*;

verus! {

/// Frames searched on each side of a boundary for a quieter frame.
pub const SILENCE_SEARCH_RADIUS: usize = 10;

/// Fewest frames that must be compared for a segment to be verified.
pub const MIN_VERIFY_COMPARED: u64 = 10;

/// First frame searched around `t`.
pub open spec fn snap_window_start(t: int) -> int {
    if t >= SILENCE_SEARCH_RADIUS {
        t - SILENCE_SEARCH_RADIUS
    } else {
        0
    }
}

/// Last frame searched around `t` among `n` frames.
pub open spec fn snap_window_end(t: int, n: int) -> int {
    if t + SILENCE_SEARCH_RADIUS < n - 1 {
        t + SILENCE_SEARCH_RADIUS
    } else {
        n - 1
    }
}

/// The bit pattern of an `f32` that is NaN: all exponent bits set and a
/// non-zero fraction.
pub open spec fn is_nan_bits(bits: u32) -> bool {
    magnitude_bits(bits) > 0x7F80_0000
}

/// The bit pattern with its sign bit cleared.
pub open spec fn magnitude_bits(bits: u32) -> int {
    if bits >= 0x8000_0000 {
        bits - 0x8000_0000
    } else {
        bits as int
    }
}

/// The bit pattern read as sign and magnitude. For non-NaN values IEEE 754
/// orders floats exactly as this integer orders their bit patterns, and
/// `0.0` and `-0.0` both read as zero.
pub open spec fn signed_magnitude(bits: u32) -> int {
    if bits >= 0x8000_0000 {
        -magnitude_bits(bits)
    } else {
        magnitude_bits(bits)
    }
}

/// The signed magnitude shifted into the range of `u32`.
pub open spec fn energy_key(bits: u32) -> int {
    signed_magnitude(bits) + 0x8000_0000
}

/// The order key of the energy whose `f32` bit pattern is `bits`: `None`
/// for NaN, which compares with nothing; otherwise an unsigned key that
/// orders as the float does.
pub fn energy_order_key(bits: u32) -> (r: Option<u32>)
    ensures
        is_nan_bits(bits) <==> r is None,
        !is_nan_bits(bits) ==> r is Some && r->0 == energy_key(bits),
{
    let negative = bits >= 0x8000_0000;
    let magnitude = if negative {
        bits - 0x8000_0000
    } else {
        bits
    };
    if magnitude > 0x7F80_0000 {
        None
    } else if negative {
        Some(0x8000_0000 - magnitude)
    } else {
        Some(0x8000_0000 + magnitude)
    }
}

/// Moves `target_frame` to the quietest frame within 10 frames of it.
///
/// `energies` holds each frame's energy as given by `energy_order_key`:
/// `None` stands for NaN, which is never quieter than anything, and a
/// target whose energy is NaN stays where it is. The target itself wins
/// ties; otherwise the earliest quietest frame does. A target past the end
/// is returned unchanged.
pub fn snap_to_silence(energies: &[Option<u32>], target_frame: u32) -> (r: u32)
    requires
        energies@.len() <= u32::MAX,
    ensures
        target_frame >= energies@.len() ==> r == target_frame,
        target_frame < energies@.len() ==> ({
            let e = energies@;
            let t = target_frame as int;
            let lo = snap_window_start(t);
            let hi = snap_window_end(t, e.len() as int);
            &&& lo <= r <= hi
            &&& t - SILENCE_SEARCH_RADIUS <= r <= t + SILENCE_SEARCH_RADIUS
            &&& e[t] is None ==> r == target_frame
            &&& e[t] is Some ==> {
                &&& e[r as int] is Some
                &&& forall|f: int|
                    lo <= f <= hi && (#[trigger] e[f]) is Some ==> e[r as int]->0 <= e[f]->0
                &&& e[r as int]->0 == e[t]->0 ==> r == target_frame
                &&& r != target_frame ==> forall|f: int|
                    lo <= f < r && (#[trigger] e[f]) is Some ==> e[f]->0 > e[r as int]->0
            }
        }),
{
    let n = energies.len();
    let tf = target_frame as usize;
    if tf >= n {
        return target_frame;
    }
    let search_start = if tf >= SILENCE_SEARCH_RADIUS {
        tf - SILENCE_SEARCH_RADIUS
    } else {
        0
    };
    let search_end = if n - 1 - tf > SILENCE_SEARCH_RADIUS {
        tf + SILENCE_SEARCH_RADIUS
    } else {
        n - 1
    };
    let ghost e = energies@;
    let mut min_energy = match energies[tf] {
        Some(k) => k,
        None => {
            return target_frame;
        },
    };
    let mut min_frame = target_frame;
    let mut f = search_start;
    while f <= search_end
        invariant
            e == energies@,
            n == e.len(),
            tf == target_frame,
            tf < n,
            e[tf as int] is Some,
            search_start <= f <= search_end + 1,
            search_end < n,
            search_start <= tf <= search_end,
            search_start == snap_window_start(tf as int),
            search_end == snap_window_end(tf as int, n as int),
            n <= u32::MAX,
            min_frame < n,
            e[min_frame as int] == Some(min_energy),
            min_energy <= e[tf as int]->0,
            forall|k: int|
                search_start <= k < f && (#[trigger] e[k]) is Some ==> min_energy <= e[k]->0,
            min_energy == e[tf as int]->0 ==> min_frame == target_frame,
            min_frame != target_frame ==> search_start <= min_frame < f && min_energy < e[
                tf as int
            ]->0 && forall|k: int|
                search_start <= k < min_frame && (#[trigger] e[k]) is Some ==> e[k]->0
                    > min_energy,
        decreases search_end + 1 - f,
    {
        if let Some(v) = energies[f] {
            if v < min_energy {
                min_energy = v;
                min_frame = f as u32;
            }
        }
        f = f + 1;
    }
    min_frame
}

/// A peak bin lies within one bin of some peak of `r`.
pub open spec fn peak_near(p: u16, r: Seq<u16>) -> bool {
    exists|k: int| 0 <= k < r.len() && p - r[k] <= 1 && r[k] - p <= 1
}

/// How many peaks of `q` lie within one bin of a peak of `r`.
pub open spec fn overlap_count(q: Seq<u16>, r: Seq<u16>) -> nat
    decreases q.len(),
{
    if q.len() == 0 {
        0
    } else {
        overlap_count(q.drop_last(), r) + if peak_near(q.last(), r) {
            1nat
        } else {
            0nat
        }
    }
}

/// Two frames agree when at least 40% of the peaks of the smaller one
/// (counting at least one) have a close peak in the other.
pub open spec fn frames_agree(q: Seq<u16>, r: Seq<u16>) -> bool {
    let m = if q.len() < r.len() {
        q.len()
    } else {
        r.len()
    };
    let min_len = if m < 1 {
        1
    } else {
        m
    };
    5 * overlap_count(q, r) >= 2 * min_len
}

/// Query frame `f` is compared: the reference frame `f + delta` exists, and
/// both frames have peaks.
pub open spec fn frame_compared(
    query: Seq<Vec<u16>>,
    refp: Seq<Vec<u16>>,
    delta: int,
    f: int,
) -> bool {
    &&& 0 <= f < query.len()
    &&& 0 <= f + delta < refp.len()
    &&& query[f]@.len() > 0
    &&& refp[f + delta]@.len() > 0
}

/// Query frame `f` is compared and agrees with its reference frame.
pub open spec fn frame_matched(
    query: Seq<Vec<u16>>,
    refp: Seq<Vec<u16>>,
    delta: int,
    f: int,
) -> bool {
    frame_compared(query, refp, delta, f) && frames_agree(query[f]@, refp[f + delta]@)
}

/// The number of compared frames among `lo .. hi`.
pub open spec fn compared_count(
    query: Seq<Vec<u16>>,
    refp: Seq<Vec<u16>>,
    delta: int,
    lo: int,
    hi: int,
) -> nat
    decreases hi - lo,
{
    if hi <= lo {
        0
    } else {
        compared_count(query, refp, delta, lo, hi - 1) + if frame_compared(
            query,
            refp,
            delta,
            hi - 1,
        ) {
            1nat
        } else {
            0nat
        }
    }
}

/// The number of matched frames among `lo .. hi`.
pub open spec fn matched_count(
    query: Seq<Vec<u16>>,
    refp: Seq<Vec<u16>>,
    delta: int,
    lo: int,
    hi: int,
) -> nat
    decreases hi - lo,
{
    if hi <= lo {
        0
    } else {
        matched_count(query, refp, delta, lo, hi - 1) + if frame_matched(
            query,
            refp,
            delta,
            hi - 1,
        ) {
            1nat
        } else {
            0nat
        }
    }
}

proof fn lemma_counts_bounded(
    query: Seq<Vec<u16>>,
    refp: Seq<Vec<u16>>,
    delta: int,
    lo: int,
    hi: int,
)
    requires
        lo <= hi,
    ensures
        matched_count(query, refp, delta, lo, hi) <= compared_count(query, refp, delta, lo, hi)
            <= hi - lo,
    decreases hi - lo,
{
    if hi > lo {
        lemma_counts_bounded(query, refp, delta, lo, hi - 1);
    }
}

/// Whether `p` lies within one bin of a peak of `r`.
fn near_any(p: u16, r: &Vec<u16>) -> (b: bool)
    ensures
        b == peak_near(p, r@),
{
    let mut k: usize = 0;
    while k < r.len()
        invariant
            k <= r@.len(),
            forall|x: int| 0 <= x < k ==> !(p - #[trigger] r@[x] <= 1 && r@[x] - p <= 1),
        decreases r@.len() - k,
    {
        let d: i32 = p as i32 - r[k] as i32;
        if -1 <= d && d <= 1 {
            return true;
        }
        k = k + 1;
    }
    false
}

/// Whether two frames agree (see `frames_agree`).
fn frame_agrees(q: &Vec<u16>, r: &Vec<u16>) -> (b: bool)
    ensures
        b == frames_agree(q@, r@),
{
    let mut overlaps: usize = 0;
    let mut i: usize = 0;
    while i < q.len()
        invariant
            i <= q@.len(),
            overlaps == overlap_count(q@.take(i as int), r@),
            overlaps <= i,
        decreases q@.len() - i,
    {
        proof {
            assert(q@.take(i + 1).drop_last() =~= q@.take(i as int));
        }
        if near_any(q[i], r) {
            overlaps = overlaps + 1;
        }
        i = i + 1;
    }
    proof {
        assert(q@.take(q@.len() as int) =~= q@);
    }
    let m = if q.len() < r.len() {
        q.len()
    } else {
        r.len()
    };
    let min_len = if m < 1 {
        1
    } else {
        m
    };
    5 * (overlaps as u128) >= 2 * (min_len as u128)
}

/// Verifies a candidate segment: compares each query frame from
/// `cluster_start_frame` to `cluster_end_frame` with the reference frame
/// `delta` frames later. A frame is compared when both frames exist and have
/// peaks, and matches when they agree. The segment is verified, and the
/// numbers of matched and compared frames returned, when at least 10 frames
/// were compared and at least half of them matched.
pub fn verify_candidate_segment_pct(
    query_peaks: &[Vec<u16>],
    ref_peaks: &[Vec<u16>],
    cluster_start_frame: u32,
    cluster_end_frame: u32,
    delta: i32,
) -> (res: Option<(u64, u64)>)
    ensures
        ({
            let c = compared_count(
                query_peaks@,
                ref_peaks@,
                delta as int,
                cluster_start_frame as int,
                cluster_end_frame + 1,
            );
            let m = matched_count(
                query_peaks@,
                ref_peaks@,
                delta as int,
                cluster_start_frame as int,
                cluster_end_frame + 1,
            );
            &&& res is Some <==> c >= MIN_VERIFY_COMPARED && 2 * m >= c
            &&& res is Some ==> res->0 == (m as u64, c as u64)
        }),
{
    let ghost qs = query_peaks@;
    let ghost rs = ref_peaks@;
    let lo = cluster_start_frame as u64;
    let hi = cluster_end_frame as u64;
    let mut total_compared: u64 = 0;
    let mut matched_frames: u64 = 0;
    let mut f: u64 = lo;
    while f <= hi
        invariant
            qs == query_peaks@,
            rs == ref_peaks@,
            lo <= f,
            f <= hi + 1 || f == lo,
            hi <= u32::MAX,
            total_compared == compared_count(qs, rs, delta as int, lo as int, f as int),
            matched_frames == matched_count(qs, rs, delta as int, lo as int, f as int),
        decreases hi + 1 - f,
    {
        proof {
            lemma_counts_bounded(qs, rs, delta as int, lo as int, f as int);
        }
        let fr: i64 = f as i64 + delta as i64;
        if 0 <= fr && (fr as u64) < (ref_peaks.len() as u64) && f < (query_peaks.len() as u64) {
            let q_frame = &query_peaks[f as usize];
            let r_frame = &ref_peaks[fr as usize];
            if q_frame.len() > 0 && r_frame.len() > 0 {
                total_compared = total_compared + 1;
                if frame_agrees(q_frame, r_frame) {
                    matched_frames = matched_frames + 1;
                }
            }
        }
        f = f + 1;
    }
    proof {
        lemma_counts_bounded(qs, rs, delta as int, lo as int, f as int);
        if lo > hi {
            assert(compared_count(qs, rs, delta as int, lo as int, hi + 1) == 0);
            assert(matched_count(qs, rs, delta as int, lo as int, hi + 1) == 0);
        }
    }
    if total_compared < MIN_VERIFY_COMPARED || total_compared == 0 {
        return None;
    }
    if 2 * (matched_frames as u128) >= total_compared as u128 {
        Some((matched_frames, total_compared))
    } else {
        None
    }
}

proof fn lemma_overlap_bounds(q: Seq<u16>, r: Seq<u16>)
    ensures
        overlap_count(q, r) <= q.len(),
        r.len() == 0 ==> overlap_count(q, r) == 0,
    decreases q.len(),
{
    if q.len() > 0 {
        lemma_overlap_bounds(q.drop_last(), r);
    }
}

/// When a frame agrees with its reference frame. It suffices that at least
/// 40% of the peaks of either frame are matched (a query peak counts as
/// matched when a reference peak lies within one bin of it); below 40% of
/// both, or with a frame that has no peaks, the frames disagree. In
/// particular a frame whose smaller side is matched in full agrees.
pub proof fn lemma_frames_agree_by_smaller_side(q: Seq<u16>, r: Seq<u16>)
    ensures
        q.len() >= 1 && 5 * overlap_count(q, r) >= 2 * q.len() ==> frames_agree(q, r),
        r.len() >= 1 && 5 * overlap_count(q, r) >= 2 * r.len() ==> frames_agree(q, r),
        5 * overlap_count(q, r) < 2 * q.len() && 5 * overlap_count(q, r) < 2 * r.len()
            ==> !frames_agree(q, r),
        q.len() == 0 || r.len() == 0 ==> !frames_agree(q, r),
        1 <= r.len() <= overlap_count(q, r) ==> frames_agree(q, r),
{
    lemma_overlap_bounds(q, r);
}

/// Query frames whose reference frame is missing or has no peaks count
/// neither as compared nor as matched: two query tracks that differ only at
/// such frames give the same counts.
pub proof fn lemma_peakless_reference_frames_ignored(
    query: Seq<Vec<u16>>,
    query2: Seq<Vec<u16>>,
    refp: Seq<Vec<u16>>,
    delta: int,
    lo: int,
    hi: int,
)
    requires
        query.len() == query2.len(),
        forall|f: int|
            lo <= f < hi && 0 <= f < query.len() && (#[trigger] query[f])@ != query2[f]@ ==> !(0
                <= f + delta < refp.len() && refp[f + delta]@.len() > 0),
    ensures
        compared_count(query2, refp, delta, lo, hi) == compared_count(query, refp, delta, lo, hi),
        matched_count(query2, refp, delta, lo, hi) == matched_count(query, refp, delta, lo, hi),
    decreases hi - lo,
{
    if hi > lo {
        lemma_peakless_reference_frames_ignored(query, query2, refp, delta, lo, hi - 1);
        let f = hi - 1;
        if 0 <= f < query.len() && query[f]@ != query2[f]@ {
            assert(!frame_compared(query, refp, delta, f));
            assert(!frame_compared(query2, refp, delta, f));
        }
    }
}

/// With no reference peaks at the compared offsets nothing is compared or
/// matched, whatever the query holds, and the segment is not verified.
pub proof fn lemma_peakless_reference_compares_nothing(
    query: Seq<Vec<u16>>,
    refp: Seq<Vec<u16>>,
    delta: int,
    lo: int,
    hi: int,
)
    requires
        forall|f: int| lo <= f < hi && 0 <= f + delta < refp.len() ==> (#[trigger] refp[f + delta])@.len() == 0,
    ensures
        compared_count(query, refp, delta, lo, hi) == 0,
        matched_count(query, refp, delta, lo, hi) == 0,
    decreases hi - lo,
{
    if hi > lo {
        lemma_peakless_reference_compares_nothing(query, refp, delta, lo, hi - 1);
        let f = hi - 1;
        if 0 <= f + delta < refp.len() {
            assert(refp[f + delta]@.len() == 0);
        }
    }
}

} // verus!
