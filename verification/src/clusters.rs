//! Cluster extraction. The warm match pairs are grouped by offset; a group
//! with fewer than three pairs is dropped; the distinct query frames of the
//! others are split into clusters wherever two consecutive frames lie more
//! than `max_cluster_gap` apart.

use vstd::prelude::*;
use crate::radix::MatchPair;

verus! {

/// A run of matching query frames at one offset: its first and last frame
/// and the number of distinct frames in it.
#[derive(Debug, Clone, Copy, PartialEq, Eq)]
pub struct DeltaCluster {
    pub delta: i32,
    pub start_frame: u32,
    pub end_frame: u32,
    pub hits: usize,
}

/// Sorted by offset, then by query frame.
pub open spec fn delta_frame_sorted(s: Seq<MatchPair>) -> bool {
    forall|i: int, j: int|
        0 <= i <= j < s.len() ==> s[i].delta_q < s[j].delta_q || (s[i].delta_q == s[j].delta_q
            && s[i].q_frame <= s[j].q_frame)
}

/// The query frames of the pairs, in order.
pub open spec fn frames_of(s: Seq<MatchPair>) -> Seq<u32> {
    s.map_values(|m: MatchPair| m.q_frame)
}

/// The frames with consecutive repeats removed.
pub open spec fn dedup_frames(s: Seq<u32>) -> Seq<u32>
    decreases s.len(),
{
    if s.len() == 0 {
        s
    } else {
        let p = dedup_frames(s.drop_last());
        if p.len() > 0 && p.last() == s.last() {
            p
        } else {
            p.push(s.last())
        }
    }
}

/// The clusters of a sequence of frames: a frame within `gap` of the end of
/// the last cluster extends it, any other frame starts a new cluster.
pub open spec fn gap_clusters(delta: i32, frames: Seq<u32>, gap: u32) -> Seq<DeltaCluster>
    decreases frames.len(),
{
    if frames.len() == 0 {
        Seq::empty()
    } else {
        let prev = gap_clusters(delta, frames.drop_last(), gap);
        let f = frames.last();
        if prev.len() > 0 && f <= prev.last().end_frame + gap {
            prev.update(
                prev.len() - 1,
                DeltaCluster {
                    delta,
                    start_frame: prev.last().start_frame,
                    end_frame: f,
                    hits: (prev.last().hits + 1) as usize,
                },
            )
        } else {
            prev.push(DeltaCluster { delta, start_frame: f, end_frame: f, hits: 1 })
        }
    }
}

/// The clusters of one offset group: none for fewer than three pairs,
/// otherwise the clusters of its distinct frames.
pub open spec fn run_clusters(delta: i32, frames: Seq<u32>, gap: u32) -> Seq<DeltaCluster> {
    if frames.len() < 3 {
        Seq::empty()
    } else {
        gap_clusters(delta, dedup_frames(frames), gap)
    }
}

/// The maximal runs of pairs with equal offsets: each offset with the query
/// frames of its run, in order.
pub open spec fn delta_runs(s: Seq<MatchPair>) -> Seq<(i32, Seq<u32>)>
    decreases s.len(),
{
    if s.len() == 0 {
        Seq::empty()
    } else {
        let prev = delta_runs(s.drop_last());
        let m = s.last();
        if prev.len() > 0 && prev.last().0 == m.delta_q {
            prev.update(prev.len() - 1, (m.delta_q, prev.last().1.push(m.q_frame)))
        } else {
            prev.push((m.delta_q, seq![m.q_frame]))
        }
    }
}

/// The clusters of all runs, run after run.
pub open spec fn all_clusters(runs: Seq<(i32, Seq<u32>)>, gap: u32) -> Seq<DeltaCluster>
    decreases runs.len(),
{
    if runs.len() == 0 {
        Seq::empty()
    } else {
        all_clusters(runs.drop_last(), gap) + run_clusters(runs.last().0, runs.last().1, gap)
    }
}

/// The clusters of a sequence of match pairs sorted by offset and frame.
pub open spec fn delta_clusters_of(s: Seq<MatchPair>, gap: u32) -> Seq<DeltaCluster> {
    all_clusters(delta_runs(s), gap)
}

proof fn lemma_frames_push(s: Seq<MatchPair>, i: int, k: int)
    requires
        0 <= i <= k < s.len(),
    ensures
        frames_of(s.subrange(i, k + 1)) =~= frames_of(s.subrange(i, k)).push(s[k].q_frame),
        frames_of(s.subrange(i, k + 1)).drop_last() =~= frames_of(s.subrange(i, k)),
        frames_of(s.subrange(i, k + 1)).last() == s[k].q_frame,
{
}

proof fn lemma_all_clusters_push(runs: Seq<(i32, Seq<u32>)>, x: (i32, Seq<u32>), gap: u32)
    ensures
        all_clusters(runs.push(x), gap) == all_clusters(runs, gap) + run_clusters(x.0, x.1, gap),
{
    assert(runs.push(x).drop_last() =~= runs);
}

/// Extending a prefix that ends a run by a run of pairs with offset `d`
/// appends one run.
proof fn lemma_runs_extend(s: Seq<MatchPair>, i: int, j: int, d: i32)
    requires
        0 <= i < j <= s.len(),
        forall|k: int| i <= k < j ==> #[trigger] s[k].delta_q == d,
        delta_runs(s.subrange(0, i)).len() > 0 ==> delta_runs(s.subrange(0, i)).last().0 != d,
    ensures
        delta_runs(s.subrange(0, j)) == delta_runs(s.subrange(0, i)).push(
            (d, frames_of(s.subrange(i, j))),
        ),
    decreases j - i,
{
    let runs_i = delta_runs(s.subrange(0, i));
    assert(s.subrange(0, j).drop_last() =~= s.subrange(0, j - 1));
    assert(s.subrange(0, j).last() == s[j - 1]);
    if j == i + 1 {
        assert(frames_of(s.subrange(i, j)) =~= seq![s[i].q_frame]);
    } else {
        lemma_runs_extend(s, i, j - 1, d);
        lemma_frames_push(s, i, j - 1);
        let x = (d, frames_of(s.subrange(i, j - 1)));
        assert(runs_i.push(x).update(runs_i.len() as int, (d, x.1.push(s[j - 1].q_frame)))
            =~= runs_i.push((d, frames_of(s.subrange(i, j)))));
    }
}

/// Splits pairs sorted by offset and frame into the clusters of each offset
/// group, in order of offset and frame; a group with fewer than three pairs
/// gives none.
pub fn extract_delta_clusters(matches: &Vec<MatchPair>, max_cluster_gap: u32) -> (out: Vec<
    DeltaCluster,
>)
    requires
        delta_frame_sorted(matches@),
        forall|i: int|
            0 <= i < matches@.len() ==> #[trigger] matches@[i].q_frame + max_cluster_gap
                <= u32::MAX,
    ensures
        out@ == delta_clusters_of(matches@, max_cluster_gap),
{
    let ghost s = matches@;
    let gap = max_cluster_gap;
    let n = matches.len();
    let mut out: Vec<DeltaCluster> = Vec::new();
    let mut i: usize = 0;
    proof {
        assert(s.subrange(0, 0) =~= Seq::<MatchPair>::empty());
    }
    while i < n
        invariant
            i <= n,
            n == s.len(),
            s == matches@,
            delta_frame_sorted(s),
            forall|x: int| 0 <= x < s.len() ==> #[trigger] s[x].q_frame + gap <= u32::MAX,
            0 < i < n ==> s[i - 1].delta_q != s[i as int].delta_q,
            i > 0 ==> delta_runs(s.subrange(0, i as int)).len() > 0 && delta_runs(
                s.subrange(0, i as int),
            ).last().0 == s[i - 1].delta_q,
            out@ == all_clusters(delta_runs(s.subrange(0, i as int)), gap),
        decreases n - i,
    {
        let d = matches[i].delta_q;
        let mut j: usize = i + 1;
        while j < n && matches[j].delta_q == d
            invariant
                i < j <= n,
                n == s.len(),
                s == matches@,
                d == s[i as int].delta_q,
                forall|k: int| i <= k < j ==> #[trigger] s[k].delta_q == d,
            decreases n - j,
        {
            j = j + 1;
        }
        let ghost base = out@;
        let ghost fr_run = frames_of(s.subrange(i as int, j as int));
        if j - i >= 3 {
            let mut cur_start = matches[i].q_frame;
            let mut cur_end = cur_start;
            let mut cur_hits: usize = 1;
            let mut k: usize = i + 1;
            let ghost mut dd: Seq<u32> = seq![cur_start];
            let ghost mut cl: Seq<DeltaCluster> = seq![
                DeltaCluster { delta: d, start_frame: cur_start, end_frame: cur_end, hits: 1 },
            ];
            proof {
                let fr1 = frames_of(s.subrange(i as int, i + 1));
                assert(fr1 =~= seq![cur_start]);
                assert(fr1.drop_last() =~= Seq::<u32>::empty());
                assert(dedup_frames(fr1.drop_last()) =~= Seq::<u32>::empty());
                assert(dedup_frames(fr1) =~= dd);
                assert(dd.drop_last() =~= Seq::<u32>::empty());
                assert(gap_clusters(d, dd.drop_last(), gap) =~= Seq::<DeltaCluster>::empty());
                assert(gap_clusters(d, dd, gap) =~= cl);
            }
            while k < j
                invariant
                    i < k <= j,
                    j <= n,
                    n == s.len(),
                    s == matches@,
                    delta_frame_sorted(s),
                    forall|x: int| 0 <= x < s.len() ==> #[trigger] s[x].q_frame + gap <= u32::MAX,
                    forall|x: int| i <= x < j ==> #[trigger] s[x].delta_q == d,
                    dd == dedup_frames(frames_of(s.subrange(i as int, k as int))),
                    cl == gap_clusters(d, dd, gap),
                    dd.len() > 0,
                    dd.last() == cur_end,
                    cur_end == s[k - 1].q_frame,
                    cl.len() > 0,
                    cl.last() == (DeltaCluster {
                        delta: d,
                        start_frame: cur_start,
                        end_frame: cur_end,
                        hits: cur_hits,
                    }),
                    cur_hits <= k - i,
                    out@ == base + cl.drop_last(),
                decreases j - k,
            {
                let f = matches[k].q_frame;
                proof {
                    lemma_frames_push(s, i as int, k as int);
                }
                let ghost fr_next = frames_of(s.subrange(i as int, k + 1));
                if f == cur_end {
                    proof {
                        assert(dedup_frames(fr_next) == dd);
                    }
                } else if f <= cur_end + gap {
                    proof {
                        let dd2 = dd.push(f);
                        assert(dd2.drop_last() =~= dd);
                        assert(dedup_frames(fr_next) == dd2);
                        let cl2 = gap_clusters(d, dd2, gap);
                        assert(cl2 == cl.update(
                            cl.len() - 1,
                            DeltaCluster {
                                delta: d,
                                start_frame: cur_start,
                                end_frame: f,
                                hits: (cur_hits + 1) as usize,
                            },
                        ));
                        assert(cl2.drop_last() =~= cl.drop_last());
                        dd = dd2;
                        cl = cl2;
                    }
                    cur_end = f;
                    cur_hits = cur_hits + 1;
                } else {
                    out.push(
                        DeltaCluster {
                            delta: d,
                            start_frame: cur_start,
                            end_frame: cur_end,
                            hits: cur_hits,
                        },
                    );
                    proof {
                        let dd2 = dd.push(f);
                        assert(dd2.drop_last() =~= dd);
                        assert(dedup_frames(fr_next) == dd2);
                        let cl2 = gap_clusters(d, dd2, gap);
                        assert(cl2 == cl.push(
                            DeltaCluster { delta: d, start_frame: f, end_frame: f, hits: 1 },
                        ));
                        assert(cl2.drop_last() =~= cl);
                        assert(cl.drop_last().push(cl.last()) =~= cl);
                        dd = dd2;
                        cl = cl2;
                    }
                    cur_start = f;
                    cur_end = f;
                    cur_hits = 1;
                }
                k = k + 1;
            }
            out.push(
                DeltaCluster { delta: d, start_frame: cur_start, end_frame: cur_end, hits: cur_hits },
            );
            proof {
                assert(cl.drop_last().push(cl.last()) =~= cl);
                assert(out@ =~= base + cl);
                assert(run_clusters(d, fr_run, gap) == cl);
            }
        } else {
            proof {
                assert(run_clusters(d, fr_run, gap) =~= Seq::<DeltaCluster>::empty());
                assert(out@ =~= base + run_clusters(d, fr_run, gap));
            }
        }
        proof {
            lemma_runs_extend(s, i as int, j as int, d);
            lemma_all_clusters_push(
                delta_runs(s.subrange(0, i as int)),
                (d, fr_run),
                gap,
            );
        }
        i = j;
    }
    proof {
        assert(s.subrange(0, n as int) =~= s);
    }
    out
}

/// Strictly increasing.
pub open spec fn strictly_increasing(s: Seq<u32>) -> bool {
    forall|i: int, j: int| 0 <= i < j < s.len() ==> s[i] < s[j]
}

/// Nondecreasing.
pub open spec fn nondecreasing(s: Seq<u32>) -> bool {
    forall|i: int, j: int| 0 <= i <= j < s.len() ==> s[i] <= s[j]
}

/// Removing repeats from nondecreasing frames leaves them strictly
/// increasing, with the same frames present, and the same last frame.
pub proof fn lemma_dedup_frames(s: Seq<u32>)
    requires
        nondecreasing(s),
    ensures
        strictly_increasing(dedup_frames(s)),
        forall|f: u32| dedup_frames(s).contains(f) <==> s.contains(f),
        s.len() > 0 ==> dedup_frames(s).len() > 0 && dedup_frames(s).last() == s.last(),
        dedup_frames(s).len() <= s.len(),
    decreases s.len(),
{
    if s.len() > 0 {
        let t = s.drop_last();
        lemma_dedup_frames(t);
        let p = dedup_frames(t);
        let d = dedup_frames(s);
        let x = s.last();
        assert(s =~= t.push(x));
        if p.len() > 0 && p.last() == x {
            assert(d == p);
            assert forall|f: u32| d.contains(f) <==> s.contains(f) by {
                if s.contains(f) {
                    let i = choose|i: int| 0 <= i < s.len() && s[i] == f;
                    if i < t.len() {
                        assert(t[i] == f);
                        assert(t.contains(f));
                    } else {
                        assert(p[p.len() - 1] == f);
                    }
                }
                if d.contains(f) {
                    assert(t.contains(f));
                    let i = choose|i: int| 0 <= i < t.len() && t[i] == f;
                    assert(s[i] == f);
                }
            }
        } else {
            assert(d == p.push(x));
            if p.len() > 0 {
                assert(p.contains(p[p.len() - 1]));
                assert(t.contains(p.last()));
                let i = choose|i: int| 0 <= i < t.len() && t[i] == p.last();
                assert(s[i] <= s[s.len() - 1]);
            }
            assert forall|f: u32| d.contains(f) <==> s.contains(f) by {
                if s.contains(f) {
                    let i = choose|i: int| 0 <= i < s.len() && s[i] == f;
                    if i < t.len() {
                        assert(t[i] == f);
                        assert(t.contains(f));
                        assert(p.contains(f));
                        let k = choose|k: int| 0 <= k < p.len() && p[k] == f;
                        assert(d[k] == f);
                    } else {
                        assert(d[p.len() as int] == f);
                    }
                }
                if d.contains(f) {
                    let k = choose|k: int| 0 <= k < d.len() && d[k] == f;
                    if k < p.len() {
                        assert(p[k] == f);
                        assert(p.contains(f));
                        assert(t.contains(f));
                        let i = choose|i: int| 0 <= i < t.len() && t[i] == f;
                        assert(s[i] == f);
                    } else {
                        assert(s[s.len() - 1] == f);
                    }
                }
            }
        }
    }
}

/// The clusters of strictly increasing frames are ordered and separated:
/// each starts no later than it ends, holds at least one frame, and starts
/// more than `gap` frames after the previous one ends. The last one ends at
/// the last frame.
pub proof fn lemma_gap_clusters_separated(delta: i32, frames: Seq<u32>, gap: u32)
    requires
        strictly_increasing(frames),
        frames.len() <= usize::MAX,
    ensures
        ({
            let c = gap_clusters(delta, frames, gap);
            &&& c.len() <= frames.len()
            &&& frames.len() > 0 ==> c.len() > 0 && c.last().end_frame == frames.last()
            &&& forall|k: int|
                0 <= k < c.len() ==> (#[trigger] c[k]).delta == delta && c[k].start_frame
                    <= c[k].end_frame && 1 <= c[k].hits <= frames.len()
            &&& forall|k: int|
                0 <= k < c.len() - 1 ==> (#[trigger] c[k + 1]).start_frame > c[k].end_frame
                    + gap
        }),
    decreases frames.len(),
{
    if frames.len() == 0 {
        assert(gap_clusters(delta, frames, gap) =~= Seq::<DeltaCluster>::empty());
    } else {
        let t = frames.drop_last();
        lemma_gap_clusters_separated(delta, t, gap);
        let prev = gap_clusters(delta, t, gap);
        let c = gap_clusters(delta, frames, gap);
        if t.len() > 0 {
            assert(t.last() < frames.last());
        }
        if prev.len() > 0 && frames.last() <= prev.last().end_frame + gap {
            assert forall|k: int| 0 <= k < c.len() - 1 implies (#[trigger] c[k + 1]).start_frame
                > c[k].end_frame + gap by {
                if k + 1 < prev.len() - 1 {
                    assert(c[k + 1] == prev[k + 1]);
                }
                assert(c[k] == prev[k]);
                assert(c[k + 1].start_frame == prev[k + 1].start_frame);
            }
        } else {
            assert forall|k: int| 0 <= k < c.len() - 1 implies (#[trigger] c[k + 1]).start_frame
                > c[k].end_frame + gap by {
                if k + 1 < prev.len() {
                    assert(c[k + 1] == prev[k + 1]);
                }
                assert(c[k] == prev[k]);
            }
        }
    }
}

} // verus!
