//! Planning the work on a directory of episodes: which files count as
//! episodes, the order of the episodes, which ones to cut with which
//! neighbours as references, and how many cuts a run may still make.

use vstd::prelude::*;
use vstd::string::StringSliceAdditionalSpecFns;

verus! {

/// Neighbours on each side of an episode whose fingerprints serve as its
/// references.
pub const NEIGHBOR_RADIUS: usize = 5;

/// ASCII lower case of a byte.
pub open spec fn ascii_lower(c: u8) -> u8 {
    if 65 <= c <= 90 {
        (c + 32) as u8
    } else {
        c
    }
}

/// The text ends with `suffix` (given in lower case), ignoring ASCII case.
pub open spec fn ends_with_ignore_case(b: Seq<u8>, suffix: Seq<u8>) -> bool {
    b.len() >= suffix.len() && forall|i: int|
        0 <= i < suffix.len() ==> ascii_lower(#[trigger] b[b.len() - suffix.len() + i]) == suffix[i]
}

/// `.mp3`
pub open spec fn mp3_suffix() -> Seq<u8> {
    seq![46u8, 109u8, 112u8, 51u8]
}

/// `_cut.mp3`
pub open spec fn cut_mp3_suffix() -> Seq<u8> {
    seq![95u8, 99u8, 117u8, 116u8, 46u8, 109u8, 112u8, 51u8]
}

fn ends_with_lower(b: &[u8], suffix: &[u8]) -> (r: bool)
    ensures
        r == ends_with_ignore_case(b@, suffix@),
{
    let n = b.len();
    let m = suffix.len();
    if n < m {
        return false;
    }
    let mut i: usize = 0;
    while i < m
        invariant
            n == b@.len(),
            m == suffix@.len(),
            m <= n,
            i <= m,
            forall|k: int| 0 <= k < i ==> ascii_lower(#[trigger] b@[n - m + k]) == suffix@[k],
        decreases m - i,
    {
        let c = b[n - m + i];
        let lc = if 65 <= c && c <= 90 {
            c + 32
        } else {
            c
        };
        if lc != suffix[i] {
            return false;
        }
        i = i + 1;
    }
    true
}

/// Whether a file name is that of an episode: it ends with `.mp3` in any
/// case, and not with `_cut.mp3` (the output of a cut). Lower-casing other
/// characters, as the directory walk does, changes neither test: no
/// character outside ASCII lower-cases to one of these letters.
pub fn is_episode_file_name(name: &str) -> (r: bool)
    ensures
        r == (ends_with_ignore_case(name.spec_bytes(), mp3_suffix()) && !ends_with_ignore_case(
            name.spec_bytes(),
            cut_mp3_suffix(),
        )),
{
    let b = name.as_bytes();
    let mp3: [u8; 4] = [46, 109, 112, 51];
    let cut: [u8; 8] = [95, 99, 117, 116, 46, 109, 112, 51];
    proof {
        assert(mp3@ =~= mp3_suffix());
        assert(cut@ =~= cut_mp3_suffix());
    }
    ends_with_lower(b, mp3.as_slice()) && !ends_with_lower(b, cut.as_slice())
}

/// Entry `a` goes before entry `b`: by key, then by position in the list.
pub open spec fn entry_le(a: (i64, usize), b: (i64, usize)) -> bool {
    a.0 < b.0 || (a.0 == b.0 && a.1 <= b.1)
}

pub open spec fn entries_sorted(s: Seq<(i64, usize)>) -> bool {
    forall|i: int, j: int| 0 <= i <= j < s.len() ==> entry_le(s[i], s[j])
}

/// The entries `(keys[i], i)` of a key list.
pub open spec fn keyed_entries(keys: Seq<i64>) -> Seq<(i64, usize)> {
    Seq::new(keys.len(), |i: int| (keys[i], i as usize))
}

/// The order in which episodes are processed: the positions of the keys,
/// by key, equal keys in list order (a stable sort by key).
pub open spec fn entry_order(keys: Seq<i64>) -> Seq<usize> {
    (choose|s: Seq<(i64, usize)>|
        s.to_multiset() == keyed_entries(keys).to_multiset() && entries_sorted(s)).map_values(
        |e: (i64, usize)| e.1,
    )
}

/// Sorts with std's `sort_unstable`; std orders tuples of integers
/// lexicographically, so the result is the input reordered by key, then
/// position.
#[verifier::external_body]
fn sort_entries(entries: &mut Vec<(i64, usize)>)
    ensures
        final(entries)@.to_multiset() == old(entries)@.to_multiset(),
        entries_sorted(final(entries)@),
{
    entries.sort_unstable();
}

/// The processing order of episodes with the given sort keys.
pub fn sort_entries_by_key(keys: &Vec<i64>) -> (order: Vec<usize>)
    ensures
        order@ == entry_order(keys@),
        order@.len() == keys@.len(),
        forall|q: int| 0 <= q < order@.len() ==> (#[trigger] order@[q]) < keys@.len(),
{
    let mut entries: Vec<(i64, usize)> = Vec::new();
    let mut i: usize = 0;
    while i < keys.len()
        invariant
            i <= keys@.len(),
            entries@ == keyed_entries(keys@).take(i as int),
        decreases keys@.len() - i,
    {
        entries.push((keys[i], i));
        i = i + 1;
        proof {
            assert(entries@ =~= keyed_entries(keys@).take(i as int));
        }
    }
    proof {
        assert(entries@ =~= keyed_entries(keys@));
    }
    sort_entries(&mut entries);
    let ghost sorted = entries@;
    let mut order: Vec<usize> = Vec::new();
    let mut j: usize = 0;
    while j < entries.len()
        invariant
            j <= entries@.len(),
            entries@ == sorted,
            order@ == sorted.take(j as int).map_values(|e: (i64, usize)| e.1),
        decreases entries@.len() - j,
    {
        order.push(entries[j].1);
        j = j + 1;
        proof {
            assert(order@ =~= sorted.take(j as int).map_values(|e: (i64, usize)| e.1));
        }
    }
    proof {
        let leq = |a: (i64, usize), b: (i64, usize)| entry_le(a, b);
        assert(vstd::relations::total_ordering(leq));
        let c = choose|s: Seq<(i64, usize)>|
            s.to_multiset() == keyed_entries(keys@).to_multiset() && entries_sorted(s);
        assert(sorted.to_multiset() == keyed_entries(keys@).to_multiset() && entries_sorted(
            sorted,
        ));
        vstd::seq_lib::lemma_sorted_unique(sorted, c, leq);
        assert(sorted.take(sorted.len() as int) =~= sorted);
        vstd::seq_lib::to_multiset_len(sorted);
        vstd::seq_lib::to_multiset_len(keyed_entries(keys@));
        assert forall|q: int| 0 <= q < order@.len() implies (#[trigger] order@[q]) < keys@.len() by {
            vstd::seq_lib::to_multiset_contains(sorted, sorted[q]);
            assert(sorted.contains(sorted[q]));
            vstd::seq_lib::to_multiset_contains(keyed_entries(keys@), sorted[q]);
            let i = choose|i: int| 0 <= i < keyed_entries(keys@).len() && keyed_entries(keys@)[i]
                == sorted[q];
            assert(order@[q] == sorted[q].1);
        }
    }
    order
}

/// An episode to cut (a position in the list of episodes) and the episodes
/// whose fingerprints serve as its references.
#[derive(Debug, Clone)]
pub struct CutTask {
    pub target: usize,
    pub refs: Vec<usize>,
}

/// The cut tasks of a directory and how many of them run.
#[derive(Debug)]
pub struct CutPlan {
    pub tasks: Vec<CutTask>,
    pub apply_limit: usize,
}

/// The references of the episode at place `p` of `order`: the episodes up
/// to five places before and after it, in order, without itself.
pub open spec fn window_refs(order: Seq<usize>, p: int) -> Seq<usize> {
    let lo = if p >= NEIGHBOR_RADIUS {
        p - NEIGHBOR_RADIUS
    } else {
        0
    };
    let hi = if p + NEIGHBOR_RADIUS + 1 < order.len() {
        p + NEIGHBOR_RADIUS + 1
    } else {
        order.len() as int
    };
    order.subrange(lo, p) + order.subrange(p + 1, hi)
}

/// The tasks for the first `k` places of `order`: an episode whose cut
/// output exists is skipped unless this is a dry run, and so is one without
/// references.
pub open spec fn plan_upto(order: Seq<usize>, output_exists: Seq<bool>, dry_run: bool, k: int) -> Seq<
    (usize, Seq<usize>),
>
    decreases k,
{
    if k <= 0 {
        Seq::empty()
    } else {
        let prev = plan_upto(order, output_exists, dry_run, k - 1);
        let e = order[k - 1];
        if output_exists[e as int] && !dry_run {
            prev
        } else if window_refs(order, k - 1).len() == 0 {
            prev
        } else {
            prev.push((e, window_refs(order, k - 1)))
        }
    }
}

/// The tasks of a plan, as targets and reference lists.
pub open spec fn tasks_view(tasks: Seq<CutTask>) -> Seq<(usize, Seq<usize>)> {
    tasks.map_values(|t: CutTask| (t.target, t.refs@))
}

/// How many of `n_tasks` tasks run: all of them, or at most `max_cut` when
/// it is positive.
pub open spec fn apply_limit_of(max_cut: usize, n_tasks: int) -> int {
    if max_cut > 0 && max_cut < n_tasks {
        max_cut as int
    } else {
        n_tasks
    }
}

/// Plans the cuts of a directory. `keys` are the episodes' sort keys,
/// `output_exists` whether each one's cut output already exists. The
/// episodes are taken in key order; each one gets as references its
/// neighbours in that order (five on each side). Returns the tasks and how
/// many of them to run.
pub fn plan_cut_tasks(keys: &Vec<i64>, output_exists: &Vec<bool>, dry_run: bool, max_cut: usize) -> (plan: CutPlan)
    requires
        output_exists@.len() == keys@.len(),
    ensures
        tasks_view(plan.tasks@) == plan_upto(
            entry_order(keys@),
            output_exists@,
            dry_run,
            keys@.len() as int,
        ),
        plan.apply_limit == apply_limit_of(max_cut, plan.tasks@.len() as int),
{
    let order = sort_entries_by_key(keys);
    let ghost ord = order@;
    let n = order.len();
    let mut tasks: Vec<CutTask> = Vec::new();
    let mut p: usize = 0;
    while p < n
        invariant
            p <= n,
            n == ord.len(),
            ord == order@,
            ord == entry_order(keys@),
            n == keys@.len(),
            output_exists@.len() == keys@.len(),
            forall|q: int| 0 <= q < n ==> (#[trigger] ord[q]) < n,
            tasks_view(tasks@) == plan_upto(ord, output_exists@, dry_run, p as int),
        decreases n - p,
    {
        let e = order[p];
        if output_exists[e] && !dry_run {
        } else {
            let lo = if p >= NEIGHBOR_RADIUS {
                p - NEIGHBOR_RADIUS
            } else {
                0
            };
            let hi = if n - p > NEIGHBOR_RADIUS + 1 {
                p + NEIGHBOR_RADIUS + 1
            } else {
                n
            };
            let mut refs: Vec<usize> = Vec::new();
            let mut q: usize = lo;
            while q < hi
                invariant
                    lo <= q <= hi,
                    hi <= n,
                    lo <= p < hi,
                    n == ord.len(),
                    ord == order@,
                    refs@ == (if q <= p {
                        ord.subrange(lo as int, q as int)
                    } else {
                        ord.subrange(lo as int, p as int) + ord.subrange(p + 1, q as int)
                    }),
                decreases hi - q,
            {
                if q != p {
                    refs.push(order[q]);
                }
                q = q + 1;
                proof {
                    if q <= p {
                        assert(refs@ =~= ord.subrange(lo as int, q as int));
                    } else if q == p + 1 {
                        assert(refs@ =~= ord.subrange(lo as int, p as int) + ord.subrange(
                            p + 1,
                            q as int,
                        ));
                    } else {
                        assert(refs@ =~= ord.subrange(lo as int, p as int) + ord.subrange(
                            p + 1,
                            q as int,
                        ));
                    }
                }
            }
            proof {
                assert(refs@ =~= window_refs(ord, p as int));
            }
            if refs.len() > 0 {
                let ghost before = tasks@;
                tasks.push(CutTask { target: e, refs });
                proof {
                    assert(tasks_view(tasks@) =~= tasks_view(before).push(
                        (e, window_refs(ord, p as int)),
                    ));
                }
            }
        }
        p = p + 1;
    }
    let limit = if max_cut > 0 && max_cut < tasks.len() {
        max_cut
    } else {
        tasks.len()
    };
    CutPlan { tasks, apply_limit: limit }
}

/// The budget of cuts for the next subdirectory of a root directory, after
/// `total_cut` cuts: `None` once a positive `max_cut` is reached; otherwise
/// what is left of it, or 0 (no limit) when `max_cut` is 0.
pub fn root_cut_budget(max_cut: usize, total_cut: usize) -> (r: Option<usize>)
    ensures
        max_cut > 0 && total_cut >= max_cut ==> r is None,
        max_cut > 0 && total_cut < max_cut ==> r == Some((max_cut - total_cut) as usize),
        max_cut == 0 ==> r == Some(0usize),
{
    if max_cut > 0 && total_cut >= max_cut {
        None
    } else if max_cut > 0 {
        Some(max_cut - total_cut)
    } else {
        Some(0)
    }
}

/// An episode is never its own reference, and has at most ten: with the
/// processing order free of repeats, the references of the episode at any
/// place are other episodes within five places of it.
pub proof fn lemma_window_refs_shape(order: Seq<usize>, p: int)
    requires
        0 <= p < order.len(),
        order.no_duplicates(),
    ensures
        !window_refs(order, p).contains(order[p]),
        window_refs(order, p).len() <= 2 * NEIGHBOR_RADIUS,
        forall|x: usize|
            window_refs(order, p).contains(x) ==> exists|q: int|
                0 <= q < order.len() && q != p && p - NEIGHBOR_RADIUS <= q <= p
                    + NEIGHBOR_RADIUS && #[trigger] order[q] == x,
{
    let lo = if p >= NEIGHBOR_RADIUS {
        p - NEIGHBOR_RADIUS
    } else {
        0
    };
    let hi = if p + NEIGHBOR_RADIUS + 1 < order.len() {
        p + NEIGHBOR_RADIUS + 1
    } else {
        order.len() as int
    };
    let w = window_refs(order, p);
    let a = order.subrange(lo, p);
    let b = order.subrange(p + 1, hi);
    assert(w == a + b);
    assert forall|x: usize| w.contains(x) implies exists|q: int|
        0 <= q < order.len() && q != p && p - NEIGHBOR_RADIUS <= q <= p + NEIGHBOR_RADIUS
            && #[trigger] order[q] == x by {
        let k = choose|k: int| 0 <= k < w.len() && w[k] == x;
        if k < a.len() {
            assert(order[lo + k] == x);
        } else {
            assert(order[p + 1 + (k - a.len())] == x);
        }
    }
    if w.contains(order[p]) {
        let k = choose|k: int| 0 <= k < w.len() && w[k] == order[p];
        if k < a.len() {
            assert(order[lo + k] == order[p]);
        } else {
            assert(order[p + 1 + (k - a.len())] == order[p]);
        }
    }
}

/// The cuts granted to the subdirectories of a root directory never add up
/// past a positive `max_cut`: a subdirectory that cuts no more than its
/// budget leaves the total within it.
pub proof fn lemma_root_budget_respected(max_cut: usize, total_cut: usize, cut_count: usize)
    requires
        max_cut > 0,
        total_cut < max_cut,
        cut_count <= max_cut - total_cut,
    ensures
        total_cut + cut_count <= max_cut,
{
}

/// A plan runs all its tasks, or exactly `max_cut` of them when that is
/// positive and smaller.
pub proof fn lemma_apply_limit(max_cut: usize, n_tasks: int)
    requires
        n_tasks >= 0,
    ensures
        apply_limit_of(max_cut, n_tasks) <= n_tasks,
        max_cut > 0 ==> apply_limit_of(max_cut, n_tasks) <= max_cut,
{
}

/// `mp3` in any ASCII case.
pub open spec fn is_mp3_extension(ext: Seq<u8>) -> bool {
    ext.len() == 3 && ascii_lower(ext[0]) == 109 && ascii_lower(ext[1]) == 112 && ascii_lower(ext[2])
        == 51
}

fn lower_byte(c: u8) -> (r: u8)
    ensures
        r == ascii_lower(c),
{
    if 65 <= c && c <= 90 {
        c + 32
    } else {
        c
    }
}

/// `needle` occurs in `hay`.
pub open spec fn contains_bytes(hay: Seq<u8>, needle: Seq<u8>) -> bool {
    exists|i: int| 0 <= i && i + needle.len() <= hay.len() && #[trigger] hay.subrange(i, i + needle.len()) == needle
}

fn occurs_at(hay: &[u8], needle: &[u8], i: usize) -> (r: bool)
    requires
        i + needle@.len() <= hay@.len(),
    ensures
        r == (hay@.subrange(i as int, i + needle@.len()) == needle@),
{
    let hn = hay.len();
    let mut k: usize = 0;
    while k < needle.len()
        invariant
            k <= needle@.len(),
            hn == hay@.len(),
            i + needle@.len() <= hay@.len(),
            forall|x: int| 0 <= x < k ==> hay@[i + x] == needle@[x],
        decreases needle@.len() - k,
    {
        if hay[i + k] != needle[k] {
            proof {
                assert(hay@.subrange(i as int, i + needle@.len())[k as int] != needle@[k as int]);
            }
            return false;
        }
        k = k + 1;
    }
    proof {
        assert(hay@.subrange(i as int, i + needle@.len()) =~= needle@);
    }
    true
}

/// Whether a created or modified file makes the watcher handle its
/// directory: its extension is `mp3` in any ASCII case and its path does
/// not contain `_cut.mp3`.
pub fn is_watch_trigger(ext: &str, path_text: &str) -> (r: bool)
    ensures
        r == (is_mp3_extension(ext.spec_bytes()) && !contains_bytes(
            path_text.spec_bytes(),
            cut_mp3_suffix(),
        )),
{
    let e = ext.as_bytes();
    let is_mp3 = e.len() == 3 && lower_byte(e[0]) == 109 && lower_byte(e[1]) == 112 && lower_byte(
        e[2],
    ) == 51;
    if !is_mp3 {
        return false;
    }
    let hay = path_text.as_bytes();
    let needle: [u8; 8] = [95, 99, 117, 116, 46, 109, 112, 51];
    proof {
        assert(needle@ =~= cut_mp3_suffix());
    }
    let n = hay.len();
    if n < 8 {
        return true;
    }
    let mut i: usize = 0;
    while i <= n - 8
        invariant
            n == hay@.len(),
            hay@ == path_text.spec_bytes(),
            n >= 8,
            i <= n - 7,
            needle@ == cut_mp3_suffix(),
            forall|j: int| 0 <= j < i ==> #[trigger] hay@.subrange(j, j + 8) != cut_mp3_suffix(),
        decreases n - i,
    {
        if occurs_at(hay, needle.as_slice(), i) {
            proof {
                assert(hay@.subrange(i as int, i + 8) == cut_mp3_suffix());
                assert(hay@.subrange(i as int, i + cut_mp3_suffix().len()) == cut_mp3_suffix());
                assert(contains_bytes(path_text.spec_bytes(), cut_mp3_suffix()));
            }
            return false;
        }
        i = i + 1;
    }
    true
}

/// How old, in nanoseconds, an unfinished cut output must be before a new
/// run removes it (ten minutes).
pub const STALE_CUTTING_AGE_NANOS: u128 = 600_000_000_000;

/// `_cutting.mp3`, the suffix of a cut still being written.
pub open spec fn cutting_suffix() -> Seq<u8> {
    seq![95u8, 99u8, 117u8, 116u8, 116u8, 105u8, 110u8, 103u8, 46u8, 109u8, 112u8, 51u8]
}

/// `.work`, the directory that holds cuts being written.
pub open spec fn work_dir_name() -> Seq<u8> {
    seq![46u8, 119u8, 111u8, 114u8, 107u8]
}

/// The text ends with `suffix`, byte for byte.
pub open spec fn ends_with_bytes(b: Seq<u8>, suffix: Seq<u8>) -> bool {
    b.len() >= suffix.len() && b.subrange(b.len() - suffix.len(), b.len() as int) == suffix
}

/// Whether a file found in a `.work` directory is an unfinished cut left by
/// an earlier run: its name ends with `_cutting.mp3` and it was last
/// modified more than ten minutes ago. `age_nanos` is the time since that
/// modification, `None` where the modification time lies in the future.
pub fn is_stale_cutting_file(file_name: &str, age_nanos: Option<u128>) -> (r: bool)
    ensures
        r == (ends_with_bytes(file_name.spec_bytes(), cutting_suffix()) && age_nanos is Some
            && age_nanos->0 > STALE_CUTTING_AGE_NANOS),
{
    let old_enough = match age_nanos {
        Some(age) => age > STALE_CUTTING_AGE_NANOS,
        None => false,
    };
    if !old_enough {
        return false;
    }
    let b = file_name.as_bytes();
    let suffix: [u8; 12] = [95, 99, 117, 116, 116, 105, 110, 103, 46, 109, 112, 51];
    proof {
        assert(suffix@ =~= cutting_suffix());
    }
    let n = b.len();
    if n < 12 {
        return false;
    }
    occurs_at(b, suffix.as_slice(), n - 12)
}

/// What the search for unfinished cuts does with a subdirectory.
#[derive(Debug, Clone, Copy, PartialEq, Eq, Structural)]
pub enum WorkDirAction {
    /// A `.work` directory: remove its stale cuts, then the directory if
    /// it is empty.
    Clean,
    /// Another hidden directory: leave it alone.
    Skip,
    /// Any other directory: search it too.
    Descend,
}

/// The action for a subdirectory named `dir_name` (the empty name where
/// the name is not valid text).
pub fn work_dir_action(dir_name: &str) -> (r: WorkDirAction)
    ensures
        dir_name.spec_bytes() == work_dir_name() ==> r == WorkDirAction::Clean,
        dir_name.spec_bytes() != work_dir_name() && dir_name.spec_bytes().len() > 0
            && dir_name.spec_bytes()[0] == 46u8 ==> r == WorkDirAction::Skip,
        dir_name.spec_bytes() != work_dir_name() && (dir_name.spec_bytes().len() == 0
            || dir_name.spec_bytes()[0] != 46u8) ==> r == WorkDirAction::Descend,
{
    let b = dir_name.as_bytes();
    let work: [u8; 5] = [46, 119, 111, 114, 107];
    proof {
        assert(work@ =~= work_dir_name());
    }
    if b.len() == 5 && occurs_at(b, work.as_slice(), 0) {
        proof {
            assert(b@ =~= b@.subrange(0, 5));
        }
        return WorkDirAction::Clean;
    }
    proof {
        if b@ == work_dir_name() {
            assert(b@.subrange(0, 5) =~= b@);
        }
    }
    if b.len() > 0 && b[0] == 46 {
        WorkDirAction::Skip
    } else {
        WorkDirAction::Descend
    }
}

} // verus!
