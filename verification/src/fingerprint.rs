//! Acoustic landmark fingerprints: every peak of an anchor frame paired
//! with every peak of each frame 3 to 17 frames later, hashed with their
//! distance.

use vstd::prelude::*;

verus! {

/// First frame distance (inclusive) that pairs an anchor frame with a target frame.
pub const TARGET_WIN_START: usize = 3;

/// Frame distance (exclusive) that bounds the target window of an anchor frame.
pub const TARGET_WIN_END: usize = 18;

/// A landmark hash anchored at a frame.
#[derive(Debug, Clone, Copy, PartialEq, Eq)]
pub struct Fingerprint {
    pub hash: u32,
    pub frame: u32,
}

/// The landmark hash of an anchor peak `f1`, a target peak `f2` and their
/// frame distance `dt`: 9 bits of each peak bin and 5 bits of the distance.
pub open spec fn landmark_hash(f1: u16, f2: u16, dt: u32) -> u32 {
    (((f1 as u32) & 0x1FFu32) << 14u32) | (((f2 as u32) & 0x1FFu32) << 5u32) | (dt & 0x1Fu32)
}

/// The first `eval_peaks` peaks of a frame (all of them when there are fewer).
pub open spec fn eval_prefix(peaks: Seq<u16>, eval_peaks: usize) -> Seq<u16> {
    if peaks.len() <= eval_peaks {
        peaks
    } else {
        peaks.take(eval_peaks as int)
    }
}

/// Fingerprints of one anchor peak `f1` against every target peak in `p2`.
pub open spec fn row_fingerprints(f1: u16, p2: Seq<u16>, dt: u32, t1: u32) -> Seq<Fingerprint>
    decreases p2.len(),
{
    if p2.len() == 0 {
        Seq::empty()
    } else {
        row_fingerprints(f1, p2.drop_last(), dt, t1).push(
            Fingerprint { hash: landmark_hash(f1, p2.last(), dt), frame: t1 },
        )
    }
}

/// Fingerprints of every anchor peak in `p1` against every target peak in
/// `p2`, anchor-major.
pub open spec fn pair_fingerprints(p1: Seq<u16>, p2: Seq<u16>, dt: u32, t1: u32) -> Seq<
    Fingerprint,
>
    decreases p1.len(),
{
    if p1.len() == 0 {
        Seq::empty()
    } else {
        pair_fingerprints(p1.drop_last(), p2, dt, t1) + row_fingerprints(p1.last(), p2, dt, t1)
    }
}

/// End (exclusive) of the target window of anchor frame `t1` among `n` frames.
pub open spec fn window_end(t1: int, n: int) -> int {
    if t1 + TARGET_WIN_END < n {
        t1 + TARGET_WIN_END
    } else {
        n
    }
}

/// Fingerprints of anchor frame `t1` with target frames `t1 + 3 .. u`.
pub open spec fn anchor_fingerprints(
    frames: Seq<Vec<u16>>,
    eval_peaks: usize,
    t1: int,
    u: int,
) -> Seq<Fingerprint>
    decreases u - t1,
{
    if u <= t1 + TARGET_WIN_START {
        Seq::empty()
    } else {
        anchor_fingerprints(frames, eval_peaks, t1, u - 1) + pair_fingerprints(
            eval_prefix(frames[t1]@, eval_peaks),
            eval_prefix(frames[u - 1]@, eval_peaks),
            (u - 1 - t1) as u32,
            t1 as u32,
        )
    }
}

/// All fingerprints whose anchor frame lies below `n`, in anchor order.
pub open spec fn fingerprints_upto(frames: Seq<Vec<u16>>, eval_peaks: usize, n: int) -> Seq<
    Fingerprint,
>
    decreases n,
{
    if n <= 0 {
        Seq::empty()
    } else {
        fingerprints_upto(frames, eval_peaks, n - 1) + anchor_fingerprints(
            frames,
            eval_peaks,
            n - 1,
            window_end(n - 1, frames.len() as int),
        )
    }
}

/// The fingerprints of a whole peak track.
pub open spec fn track_fingerprints(frames: Seq<Vec<u16>>, eval_peaks: usize) -> Seq<Fingerprint> {
    fingerprints_upto(frames, eval_peaks, frames.len() as int)
}

/// Appends the fingerprints of anchor peak `f1` against the first `n2` peaks of `peaks2`.
fn push_row(
    out: &mut Vec<Fingerprint>,
    f1_u16: u16,
    peaks2: &Vec<u16>,
    n2: usize,
    dt: u32,
    t1: u32,
)
    requires
        n2 <= peaks2@.len(),
    ensures
        final(out)@ == old(out)@ + row_fingerprints(f1_u16, peaks2@.take(n2 as int), dt, t1),
{
    let f1 = f1_u16 as u32 & 0x1FF;
    let mut j: usize = 0;
    while j < n2
        invariant
            j <= n2 <= peaks2@.len(),
            f1 == (f1_u16 as u32) & 0x1FFu32,
            out@ == old(out)@ + row_fingerprints(f1_u16, peaks2@.take(j as int), dt, t1),
        decreases n2 - j,
    {
        let f2 = peaks2[j] as u32 & 0x1FF;
        let hash = (f1 << 14) | (f2 << 5) | (dt & 0x1F);
        out.push(Fingerprint { hash, frame: t1 });
        proof {
            assert(peaks2@.take(j + 1).drop_last() =~= peaks2@.take(j as int));
            assert(out@ =~= old(out)@ + row_fingerprints(
                f1_u16,
                peaks2@.take(j + 1),
                dt,
                t1,
            ));
        }
        j = j + 1;
    }
}

/// Appends the fingerprints of the first `n1` peaks of `peaks1` against the
/// first `n2` peaks of `peaks2`.
fn push_pair(
    out: &mut Vec<Fingerprint>,
    peaks1: &Vec<u16>,
    n1: usize,
    peaks2: &Vec<u16>,
    n2: usize,
    dt: u32,
    t1: u32,
)
    requires
        n1 <= peaks1@.len(),
        n2 <= peaks2@.len(),
    ensures
        final(out)@ == old(out)@ + pair_fingerprints(
            peaks1@.take(n1 as int),
            peaks2@.take(n2 as int),
            dt,
            t1,
        ),
{
    let mut i: usize = 0;
    while i < n1
        invariant
            i <= n1 <= peaks1@.len(),
            n2 <= peaks2@.len(),
            out@ == old(out)@ + pair_fingerprints(
                peaks1@.take(i as int),
                peaks2@.take(n2 as int),
                dt,
                t1,
            ),
        decreases n1 - i,
    {
        let ghost before = out@;
        push_row(out, peaks1[i], peaks2, n2, dt, t1);
        proof {
            assert(peaks1@.take(i + 1).drop_last() =~= peaks1@.take(i as int));
            assert(peaks1@.take(i + 1).last() == peaks1@[i as int]);
            assert(out@ =~= old(out)@ + pair_fingerprints(
                peaks1@.take(i + 1),
                peaks2@.take(n2 as int),
                dt,
                t1,
            ));
        }
        i = i + 1;
    }
}

proof fn lemma_eval_prefix(peaks: Seq<u16>, eval_peaks: usize, n: usize)
    requires
        n == (if peaks.len() < eval_peaks { peaks.len() as usize } else { eval_peaks }),
    ensures
        eval_prefix(peaks, eval_peaks) == peaks.take(n as int),
{
    assert(peaks.take(peaks.len() as int) =~= peaks);
}

/// Generates the landmark fingerprints of a peak track: every anchor frame
/// `t1` is paired with the target frames `t1 + 3 .. t1 + 18` (clipped to the
/// track), and every one of the first `eval_peaks` peaks of the anchor frame
/// with every one of the first `eval_peaks` peaks of the target frame gives
/// one fingerprint, anchored at `t1`. On the first `k` frames of a track it
/// gives, in order, exactly the whole track's fingerprints whose target
/// frame lies before `k` (`lemma_prefix_fingerprints`).
pub fn generate_fingerprints_from_raw_peaks(raw_frame_peaks: &[Vec<u16>], eval_peaks: usize) -> (r:
    Vec<Fingerprint>)
    requires
        raw_frame_peaks@.len() + TARGET_WIN_END <= usize::MAX,
    ensures
        r@ == track_fingerprints(raw_frame_peaks@, eval_peaks),
{
    let total_frames = raw_frame_peaks.len();
    let mut fingerprints: Vec<Fingerprint> = Vec::new();
    let mut t1: usize = 0;
    while t1 < total_frames
        invariant
            t1 <= total_frames == raw_frame_peaks@.len(),
            total_frames + TARGET_WIN_END <= usize::MAX,
            fingerprints@ == fingerprints_upto(raw_frame_peaks@, eval_peaks, t1 as int),
        decreases total_frames - t1,
    {
        let peaks1 = &raw_frame_peaks[t1];
        let n1 = if peaks1.len() < eval_peaks {
            peaks1.len()
        } else {
            eval_peaks
        };
        proof {
            lemma_eval_prefix(peaks1@, eval_peaks, n1);
        }
        let ghost base = fingerprints@;
        let t2_end = if t1 + TARGET_WIN_END < total_frames {
            t1 + TARGET_WIN_END
        } else {
            total_frames
        };
        let mut t2 = t1 + TARGET_WIN_START;
        assert(anchor_fingerprints(raw_frame_peaks@, eval_peaks, t1 as int, t2 as int)
            =~= Seq::empty());
        while t2 < t2_end
            invariant
                t1 < total_frames == raw_frame_peaks@.len(),
                t1 + TARGET_WIN_START <= t2,
                t2_end <= total_frames,
                t2_end == window_end(t1 as int, total_frames as int),
                peaks1 == &raw_frame_peaks@[t1 as int],
                eval_prefix(peaks1@, eval_peaks) == peaks1@.take(n1 as int),
                n1 <= peaks1@.len(),
                t2 <= t2_end || t2 == t1 + TARGET_WIN_START,
                fingerprints@ == base + anchor_fingerprints(
                    raw_frame_peaks@,
                    eval_peaks,
                    t1 as int,
                    t2 as int,
                ),
            decreases t2_end - t2,
        {
            let peaks2 = &raw_frame_peaks[t2];
            let n2 = if peaks2.len() < eval_peaks {
                peaks2.len()
            } else {
                eval_peaks
            };
            proof {
                lemma_eval_prefix(peaks2@, eval_peaks, n2);
            }
            let dt = (t2 - t1) as u32;
            push_pair(&mut fingerprints, peaks1, n1, peaks2, n2, dt, #[verifier::truncate] (t1 as u32));
            proof {
                assert(fingerprints@ =~= base + anchor_fingerprints(
                    raw_frame_peaks@,
                    eval_peaks,
                    t1 as int,
                    t2 + 1,
                ));
            }
            t2 = t2 + 1;
        }
        proof {
            if t2_end <= t1 + TARGET_WIN_START {
                assert(anchor_fingerprints(raw_frame_peaks@, eval_peaks, t1 as int, t2_end as int)
                    =~= Seq::empty());
                assert(anchor_fingerprints(raw_frame_peaks@, eval_peaks, t1 as int, t2 as int)
                    =~= Seq::empty());
            } else {
                assert(t2 == t2_end);
            }
            assert(fingerprints@ == base + anchor_fingerprints(
                raw_frame_peaks@,
                eval_peaks,
                t1 as int,
                window_end(t1 as int, total_frames as int),
            ));
        }
        assert(fingerprints@ =~= fingerprints_upto(raw_frame_peaks@, eval_peaks, t1 + 1));
        t1 = t1 + 1;
    }
    fingerprints
}

/// A landmark hash fits in 23 bits and holds its parts: the anchor bin in
/// bits 14..23, the target bin in bits 5..14 and the frame distance in bits
/// 0..5, each cut to its width.
pub proof fn lemma_landmark_hash_fields(f1: u16, f2: u16, dt: u32)
    ensures
        landmark_hash(f1, f2, dt) < 0x80_0000,
        landmark_hash(f1, f2, dt) >> 14u32 == (f1 as u32) & 0x1FFu32,
        (landmark_hash(f1, f2, dt) >> 5u32) & 0x1FFu32 == (f2 as u32) & 0x1FFu32,
        landmark_hash(f1, f2, dt) & 0x1Fu32 == dt & 0x1Fu32,
{
    let a = f1 as u32;
    let b = f2 as u32;
    assert((((a & 0x1FFu32) << 14u32) | ((b & 0x1FFu32) << 5u32) | (dt & 0x1Fu32)) < 0x80_0000u32
        && (((a & 0x1FFu32) << 14u32) | ((b & 0x1FFu32) << 5u32) | (dt & 0x1Fu32)) >> 14u32 == a
        & 0x1FFu32 && ((((a & 0x1FFu32) << 14u32) | ((b & 0x1FFu32) << 5u32) | (dt & 0x1Fu32))
        >> 5u32) & 0x1FFu32 == b & 0x1FFu32 && (((a & 0x1FFu32) << 14u32) | ((b & 0x1FFu32)
        << 5u32) | (dt & 0x1Fu32)) & 0x1Fu32 == dt & 0x1Fu32) by (bit_vector);
}

/// A fingerprint whose target frame (its anchor frame plus the frame
/// distance in its low five bits) lies before frame `k`.
pub open spec fn ends_before(k: int) -> spec_fn(Fingerprint) -> bool {
    |fp: Fingerprint| fp.frame + (fp.hash & 0x1Fu32) < k
}

proof fn lemma_filter_all<A>(s: Seq<A>, p: spec_fn(A) -> bool)
    requires
        forall|i: int| 0 <= i < s.len() ==> p(#[trigger] s[i]),
    ensures
        s.filter(p) == s,
    decreases s.len(),
{
    reveal(Seq::filter);
    if s.len() > 0 {
        lemma_filter_all(s.drop_last(), p);
        assert(p(s[s.len() - 1]));
        assert(s.drop_last().push(s.last()) =~= s);
    }
}

proof fn lemma_filter_none<A>(s: Seq<A>, p: spec_fn(A) -> bool)
    requires
        forall|i: int| 0 <= i < s.len() ==> !p(#[trigger] s[i]),
    ensures
        s.filter(p) == Seq::<A>::empty(),
    decreases s.len(),
{
    reveal(Seq::filter);
    if s.len() > 0 {
        lemma_filter_none(s.drop_last(), p);
        assert(!p(s[s.len() - 1]));
    }
}

proof fn lemma_row_shape(f1: u16, p2: Seq<u16>, dt: u32, t1: u32)
    requires
        dt < 32,
    ensures
        forall|i: int|
            0 <= i < row_fingerprints(f1, p2, dt, t1).len() ==> (#[trigger] row_fingerprints(
                f1,
                p2,
                dt,
                t1,
            )[i]).frame == t1 && row_fingerprints(f1, p2, dt, t1)[i].hash & 0x1Fu32 == dt,
    decreases p2.len(),
{
    if p2.len() > 0 {
        lemma_row_shape(f1, p2.drop_last(), dt, t1);
        lemma_landmark_hash_fields(f1, p2.last(), dt);
        assert(dt & 0x1Fu32 == dt) by (bit_vector)
            requires
                dt < 32,
        ;
        let prev = row_fingerprints(f1, p2.drop_last(), dt, t1);
        let row = row_fingerprints(f1, p2, dt, t1);
        assert(row == prev.push(Fingerprint { hash: landmark_hash(f1, p2.last(), dt), frame: t1 }));
        assert forall|i: int| 0 <= i < row.len() implies (#[trigger] row[i]).frame == t1 && row[i].hash
            & 0x1Fu32 == dt by {
            if i < prev.len() {
                assert(row[i] == prev[i]);
            }
        }
    }
}

proof fn lemma_pair_shape(p1: Seq<u16>, p2: Seq<u16>, dt: u32, t1: u32)
    requires
        dt < 32,
    ensures
        forall|i: int|
            0 <= i < pair_fingerprints(p1, p2, dt, t1).len() ==> (#[trigger] pair_fingerprints(
                p1,
                p2,
                dt,
                t1,
            )[i]).frame == t1 && pair_fingerprints(p1, p2, dt, t1)[i].hash & 0x1Fu32 == dt,
    decreases p1.len(),
{
    if p1.len() > 0 {
        lemma_pair_shape(p1.drop_last(), p2, dt, t1);
        lemma_row_shape(p1.last(), p2, dt, t1);
        let a = pair_fingerprints(p1.drop_last(), p2, dt, t1);
        let b = row_fingerprints(p1.last(), p2, dt, t1);
        assert forall|i: int| 0 <= i < (a + b).len() implies (#[trigger] (a + b)[i]).frame == t1
            && (a + b)[i].hash & 0x1Fu32 == dt by {
            if i >= a.len() {
                assert((a + b)[i] == b[i - a.len()]);
            }
        }
    }
}

/// The fingerprints of anchor frame `t1` with targets below `u`, cut to the
/// targets before `k`, are those of the first `k` frames.
proof fn lemma_anchor_prefix(
    frames: Seq<Vec<u16>>,
    eval_peaks: usize,
    k: int,
    t1: int,
    u: int,
)
    requires
        0 <= k <= frames.len() <= u32::MAX,
        0 <= t1 < frames.len(),
        u <= window_end(t1, frames.len() as int),
    ensures
        anchor_fingerprints(frames, eval_peaks, t1, u).filter(ends_before(k)) == anchor_fingerprints(
            frames.take(k),
            eval_peaks,
            t1,
            if u < k {
                u
            } else {
                k
            },
        ),
    decreases u - t1,
{
    let pre = frames.take(k);
    let v = if u < k {
        u
    } else {
        k
    };
    if u <= t1 + TARGET_WIN_START {
        assert(anchor_fingerprints(frames, eval_peaks, t1, u) =~= Seq::empty());
        lemma_filter_none(Seq::<Fingerprint>::empty(), ends_before(k));
        assert(anchor_fingerprints(pre, eval_peaks, t1, v) =~= Seq::empty());
    } else {
        lemma_anchor_prefix(frames, eval_peaks, k, t1, u - 1);
        let dt = (u - 1 - t1) as u32;
        let block = pair_fingerprints(
            eval_prefix(frames[t1]@, eval_peaks),
            eval_prefix(frames[u - 1]@, eval_peaks),
            dt,
            t1 as u32,
        );
        lemma_pair_shape(
            eval_prefix(frames[t1]@, eval_peaks),
            eval_prefix(frames[u - 1]@, eval_peaks),
            dt,
            t1 as u32,
        );
        Seq::filter_distributes_over_add(
            anchor_fingerprints(frames, eval_peaks, t1, u - 1),
            block,
            ends_before(k),
        );
        if u - 1 < k {
            assert forall|i: int| 0 <= i < block.len() implies (ends_before(k))(
                #[trigger] block[i],
            ) by {}
            lemma_filter_all(block, ends_before(k));
            assert(pre[t1] == frames[t1]);
            assert(pre[u - 1] == frames[u - 1]);
        } else {
            assert forall|i: int| 0 <= i < block.len() implies !(ends_before(k))(
                #[trigger] block[i],
            ) by {}
            lemma_filter_none(block, ends_before(k));
            assert(anchor_fingerprints(frames, eval_peaks, t1, u - 1).filter(ends_before(k)) + Seq::<
                Fingerprint,
            >::empty() =~= anchor_fingerprints(frames, eval_peaks, t1, u - 1).filter(
                ends_before(k),
            ));
        }
    }
}

/// The fingerprints anchored below `t`, cut to the targets before `k`, are
/// those of the first `k` frames anchored below `t` (and below `k`).
proof fn lemma_upto_prefix(frames: Seq<Vec<u16>>, eval_peaks: usize, k: int, t: int)
    requires
        0 <= k <= frames.len() <= u32::MAX,
        0 <= t <= frames.len(),
    ensures
        fingerprints_upto(frames, eval_peaks, t).filter(ends_before(k)) == fingerprints_upto(
            frames.take(k),
            eval_peaks,
            if t < k {
                t
            } else {
                k
            },
        ),
    decreases t,
{
    let pre = frames.take(k);
    let n = frames.len() as int;
    if t == 0 {
        lemma_filter_none(Seq::<Fingerprint>::empty(), ends_before(k));
    } else {
        lemma_upto_prefix(frames, eval_peaks, k, t - 1);
        let we = window_end(t - 1, n);
        lemma_anchor_prefix(frames, eval_peaks, k, t - 1, we);
        Seq::filter_distributes_over_add(
            fingerprints_upto(frames, eval_peaks, t - 1),
            anchor_fingerprints(frames, eval_peaks, t - 1, we),
            ends_before(k),
        );
        if t - 1 < k {
            assert(window_end(t - 1, k) == if we < k {
                we
            } else {
                k
            });
        } else {
            let v = if we < k {
                we
            } else {
                k
            };
            assert(anchor_fingerprints(pre, eval_peaks, t - 1, v) =~= Seq::empty());
            assert(fingerprints_upto(pre, eval_peaks, k) + Seq::<Fingerprint>::empty()
                =~= fingerprints_upto(pre, eval_peaks, k));
        }
    }
}

/// The fingerprints of the first `k` frames of a track are, in order, the
/// fingerprints of the whole track whose target frame lies before `k`.
pub proof fn lemma_prefix_fingerprints(frames: Seq<Vec<u16>>, eval_peaks: usize, k: int)
    requires
        0 <= k <= frames.len() <= u32::MAX,
    ensures
        track_fingerprints(frames.take(k), eval_peaks) == track_fingerprints(
            frames,
            eval_peaks,
        ).filter(ends_before(k)),
{
    lemma_upto_prefix(frames, eval_peaks, k, frames.len() as int);
}

/// The number of peaks of a frame that take part in fingerprints: its
/// first `eval_peaks` peaks, or all of them when it has fewer.
pub open spec fn peaks_used(peaks: Seq<u16>, eval_peaks: usize) -> int {
    if peaks.len() < eval_peaks {
        peaks.len() as int
    } else {
        eval_peaks as int
    }
}

/// `fp` pairs a used peak of its anchor frame with a used peak of a frame
/// 3 to 17 frames later in the track: the low five bits of its hash give the
/// frame distance, the target frame lies in the track, and its hash is the
/// landmark hash of the `i`-th peak of the anchor frame and the `j`-th peak
/// of the target frame for some `i`, `j` below `eval_peaks`.
pub open spec fn is_landmark_of(frames: Seq<Vec<u16>>, eval_peaks: usize, fp: Fingerprint) -> bool {
    let t1 = fp.frame as int;
    let dt = fp.hash & 0x1Fu32;
    let t2 = t1 + dt;
    &&& TARGET_WIN_START <= dt < TARGET_WIN_END
    &&& t2 < frames.len()
    &&& exists|i: int, j: int|
        #![trigger frames[t1]@[i], frames[t2]@[j]]
        0 <= i < peaks_used(frames[t1]@, eval_peaks) && 0 <= j < peaks_used(frames[t2]@, eval_peaks)
            && fp.hash == landmark_hash(frames[t1]@[i], frames[t2]@[j], dt)
}

/// How many fingerprints anchor frame `t1` gives with the target frames
/// `t1 + 3 .. u`: the product of the used peak counts of the two frames,
/// summed over the target frames.
pub open spec fn anchor_count(frames: Seq<Vec<u16>>, eval_peaks: usize, t1: int, u: int) -> int
    decreases u - t1,
{
    if u <= t1 + TARGET_WIN_START {
        0
    } else {
        anchor_count(frames, eval_peaks, t1, u - 1) + peaks_used(frames[t1]@, eval_peaks)
            * peaks_used(frames[u - 1]@, eval_peaks)
    }
}

/// How many fingerprints the anchor frames below `n` give.
pub open spec fn upto_count(frames: Seq<Vec<u16>>, eval_peaks: usize, n: int) -> int
    decreases n,
{
    if n <= 0 {
        0
    } else {
        upto_count(frames, eval_peaks, n - 1) + anchor_count(
            frames,
            eval_peaks,
            n - 1,
            window_end(n - 1, frames.len() as int),
        )
    }
}

proof fn lemma_row_elems(f1: u16, p2: Seq<u16>, dt: u32, t1: u32)
    ensures
        row_fingerprints(f1, p2, dt, t1).len() == p2.len(),
        forall|k: int|
            0 <= k < p2.len() ==> #[trigger] row_fingerprints(f1, p2, dt, t1)[k] == (Fingerprint {
                hash: landmark_hash(f1, p2[k], dt),
                frame: t1,
            }),
    decreases p2.len(),
{
    if p2.len() > 0 {
        lemma_row_elems(f1, p2.drop_last(), dt, t1);
        let prev = row_fingerprints(f1, p2.drop_last(), dt, t1);
        assert forall|k: int| 0 <= k < p2.len() implies #[trigger] row_fingerprints(
            f1,
            p2,
            dt,
            t1,
        )[k] == (Fingerprint { hash: landmark_hash(f1, p2[k], dt), frame: t1 }) by {
            if k < p2.len() - 1 {
                assert(prev[k] == (Fingerprint {
                    hash: landmark_hash(f1, p2.drop_last()[k], dt),
                    frame: t1,
                }));
            }
        }
    }
}

proof fn lemma_pair_elems(p1: Seq<u16>, p2: Seq<u16>, dt: u32, t1: u32)
    ensures
        pair_fingerprints(p1, p2, dt, t1).len() == p1.len() * p2.len(),
        forall|k: int|
            0 <= k < pair_fingerprints(p1, p2, dt, t1).len() ==> exists|a: int, b: int|
                0 <= a < p1.len() && 0 <= b < p2.len() && #[trigger] pair_fingerprints(
                    p1,
                    p2,
                    dt,
                    t1,
                )[k] == (Fingerprint { hash: landmark_hash(p1[a], p2[b], dt), frame: t1 }),
    decreases p1.len(),
{
    if p1.len() > 0 {
        let q1 = p1.drop_last();
        lemma_pair_elems(q1, p2, dt, t1);
        lemma_row_elems(p1.last(), p2, dt, t1);
        let a = pair_fingerprints(q1, p2, dt, t1);
        let b = row_fingerprints(p1.last(), p2, dt, t1);
        assert((p1.len() - 1) * p2.len() + p2.len() == p1.len() * p2.len()) by (nonlinear_arith);
        assert forall|k: int| 0 <= k < (a + b).len() implies exists|x: int, y: int|
            0 <= x < p1.len() && 0 <= y < p2.len() && #[trigger] (a + b)[k] == (Fingerprint {
                hash: landmark_hash(p1[x], p2[y], dt),
                frame: t1,
            }) by {
            if k < a.len() {
                let (x, y) = choose|x: int, y: int|
                    0 <= x < q1.len() && 0 <= y < p2.len() && #[trigger] a[k] == (Fingerprint {
                        hash: landmark_hash(q1[x], p2[y], dt),
                        frame: t1,
                    });
                assert(q1[x] == p1[x]);
                assert((a + b)[k] == a[k]);
            } else {
                let y = k - a.len();
                assert((a + b)[k] == b[y]);
                assert(p1.last() == p1[p1.len() - 1]);
            }
        }
        assert(pair_fingerprints(p1, p2, dt, t1) == a + b);
    }
}

proof fn lemma_eval_prefix_elems(peaks: Seq<u16>, eval_peaks: usize)
    ensures
        eval_prefix(peaks, eval_peaks).len() == peaks_used(peaks, eval_peaks),
        forall|a: int|
            0 <= a < peaks_used(peaks, eval_peaks) ==> #[trigger] eval_prefix(peaks, eval_peaks)[a]
                == peaks[a],
{
}

proof fn lemma_anchor_sound(frames: Seq<Vec<u16>>, eval_peaks: usize, t1: int, u: int)
    requires
        0 <= t1 < frames.len() <= u32::MAX,
        u <= window_end(t1, frames.len() as int),
    ensures
        anchor_fingerprints(frames, eval_peaks, t1, u).len() == anchor_count(frames, eval_peaks, t1, u),
        forall|k: int|
            0 <= k < anchor_fingerprints(frames, eval_peaks, t1, u).len() ==> is_landmark_of(
                frames,
                eval_peaks,
                #[trigger] anchor_fingerprints(frames, eval_peaks, t1, u)[k],
            ),
    decreases u - t1,
{
    if u > t1 + TARGET_WIN_START {
        lemma_anchor_sound(frames, eval_peaks, t1, u - 1);
        let t2 = u - 1;
        let dt = (t2 - t1) as u32;
        let p1 = eval_prefix(frames[t1]@, eval_peaks);
        let p2 = eval_prefix(frames[t2]@, eval_peaks);
        lemma_eval_prefix_elems(frames[t1]@, eval_peaks);
        lemma_eval_prefix_elems(frames[t2]@, eval_peaks);
        lemma_pair_elems(p1, p2, dt, t1 as u32);
        let prev = anchor_fingerprints(frames, eval_peaks, t1, u - 1);
        let block = pair_fingerprints(p1, p2, dt, t1 as u32);
        assert(anchor_fingerprints(frames, eval_peaks, t1, u) == prev + block);
        assert forall|k: int| 0 <= k < (prev + block).len() implies is_landmark_of(
            frames,
            eval_peaks,
            #[trigger] (prev + block)[k],
        ) by {
            if k < prev.len() {
                assert((prev + block)[k] == prev[k]);
            } else {
                let kk = k - prev.len();
                assert((prev + block)[k] == block[kk]);
                let (a, b) = choose|a: int, b: int|
                    0 <= a < p1.len() && 0 <= b < p2.len() && #[trigger] block[kk] == (Fingerprint {
                        hash: landmark_hash(p1[a], p2[b], dt),
                        frame: t1 as u32,
                    });
                let fp = block[kk];
                lemma_landmark_hash_fields(p1[a], p2[b], dt);
                assert(dt & 0x1Fu32 == dt) by (bit_vector)
                    requires
                        dt < 32,
                ;
                assert(fp.frame as int == t1);
                assert(fp.hash & 0x1Fu32 == dt);
                assert(p1[a] == frames[t1]@[a]);
                assert(p2[b] == frames[t2]@[b]);
                assert(fp.hash == landmark_hash(frames[t1]@[a], frames[t2]@[b], dt));
                let ft1 = fp.frame as int;
                let ft2 = ft1 + (fp.hash & 0x1Fu32);
                assert(ft1 == t1 && ft2 == t2);
                assert(0 <= a < peaks_used(frames[ft1]@, eval_peaks) && 0 <= b < peaks_used(
                    frames[ft2]@,
                    eval_peaks,
                ) && fp.hash == landmark_hash(frames[ft1]@[a], frames[ft2]@[b], fp.hash & 0x1Fu32));
                assert(is_landmark_of(frames, eval_peaks, fp));
            }
        }
    }
}

/// Every fingerprint of a track pairs a used peak of its anchor frame with
/// a used peak of a frame 3 to 17 frames later: only the first `eval_peaks`
/// peaks of either frame ever enter a hash.
pub proof fn lemma_fingerprints_use_first_peaks(frames: Seq<Vec<u16>>, eval_peaks: usize)
    requires
        frames.len() <= u32::MAX,
    ensures
        forall|k: int|
            0 <= k < track_fingerprints(frames, eval_peaks).len() ==> is_landmark_of(
                frames,
                eval_peaks,
                #[trigger] track_fingerprints(frames, eval_peaks)[k],
            ),
{
    lemma_upto_sound(frames, eval_peaks, frames.len() as int);
}

/// A track gives, for every anchor frame `t1` and every target frame
/// `t1 + 3 .. t1 + 18` in the track, as many fingerprints as the product
/// of the two frames' used peak counts.
pub proof fn lemma_fingerprint_count(frames: Seq<Vec<u16>>, eval_peaks: usize)
    requires
        frames.len() <= u32::MAX,
    ensures
        track_fingerprints(frames, eval_peaks).len() == upto_count(
            frames,
            eval_peaks,
            frames.len() as int,
        ),
{
    lemma_upto_sound(frames, eval_peaks, frames.len() as int);
}

proof fn lemma_upto_sound(frames: Seq<Vec<u16>>, eval_peaks: usize, n: int)
    requires
        0 <= n <= frames.len() <= u32::MAX,
    ensures
        fingerprints_upto(frames, eval_peaks, n).len() == upto_count(frames, eval_peaks, n),
        forall|k: int|
            0 <= k < fingerprints_upto(frames, eval_peaks, n).len() ==> is_landmark_of(
                frames,
                eval_peaks,
                #[trigger] fingerprints_upto(frames, eval_peaks, n)[k],
            ),
    decreases n,
{
    if n > 0 {
        lemma_upto_sound(frames, eval_peaks, n - 1);
        let we = window_end(n - 1, frames.len() as int);
        lemma_anchor_sound(frames, eval_peaks, n - 1, we);
        let prev = fingerprints_upto(frames, eval_peaks, n - 1);
        let block = anchor_fingerprints(frames, eval_peaks, n - 1, we);
        assert(fingerprints_upto(frames, eval_peaks, n) == prev + block);
        assert forall|k: int| 0 <= k < (prev + block).len() implies is_landmark_of(
            frames,
            eval_peaks,
            #[trigger] (prev + block)[k],
        ) by {
            if k < prev.len() {
                assert((prev + block)[k] == prev[k]);
            } else {
                assert((prev + block)[k] == block[k - prev.len()]);
            }
        }
    }
}

} // verus!
