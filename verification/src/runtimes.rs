//! Bookkeeping of how long the operations of a run took: per operation name,
//! the number of calls and their total duration; per subdirectory, what was
//! done in it and how long it took.

use vstd::prelude::*;
use vstd::string::{StringExecFns, StringSliceAdditionalSpecFns};
use vstd::utf8::{encode_utf8, is_char_boundary};
use std::time::{Duration, Instant};
use crate::clock::{clock_elapsed, clock_now, whole_nanos};

verus! {

/// std's `Clone` for `Duration`, which is `Copy`: the clone is the value.
pub assume_specification[ <Duration as Clone>::clone ](d: &Duration) -> (r: Duration)
    ensures
        r == *d,
;

/// The calls of one named operation, and their total time in nanoseconds.
#[derive(Debug, Clone)]
pub struct OperationRecord {
    pub name: String,
    pub count: usize,
    pub total_nanos: u128,
}

/// What was done in one subdirectory, and how long it took.
#[derive(Debug, Clone)]
pub struct SubdirStats {
    pub path: String,
    pub duration: Duration,
    pub preprocessed_count: usize,
    pub cut_count: usize,
}

/// Collects operation and subdirectory timings when enabled; does nothing
/// otherwise.
#[derive(Debug)]
pub struct RuntimeTracker {
    enabled: bool,
    start_time: Instant,
    operations: Vec<OperationRecord>,
    subdirs: Vec<SubdirStats>,
}

/// Whether an operation named `name` has a record.
pub open spec fn has_op(ops: Seq<OperationRecord>, name: Seq<char>) -> bool {
    exists|i: int| 0 <= i < ops.len() && #[trigger] ops[i].name@ == name
}

/// The number of calls recorded for `name` (0 when it has no record).
pub open spec fn op_count(ops: Seq<OperationRecord>, name: Seq<char>) -> int {
    if has_op(ops, name) {
        ops[choose|i: int| 0 <= i < ops.len() && #[trigger] ops[i].name@ == name].count as int
    } else {
        0
    }
}

/// No two records share a name.
pub open spec fn names_distinct(ops: Seq<OperationRecord>) -> bool {
    forall|i: int, j: int|
        0 <= i < ops.len() && 0 <= j < ops.len() && i != j ==> #[trigger] ops[i].name@
            != #[trigger] ops[j].name@
}

/// `a + b`, or the largest `u128` where the sum would not fit.
pub open spec fn saturating_sum(a: u128, b: u128) -> u128 {
    if a + b > u128::MAX {
        u128::MAX
    } else {
        (a + b) as u128
    }
}

/// `after` is `before` with `count` more calls taking `nanos` more
/// nanoseconds recorded for `name`: an existing record is updated in place,
/// otherwise a new record is appended.
pub open spec fn recorded(
    before: Seq<OperationRecord>,
    after: Seq<OperationRecord>,
    name: Seq<char>,
    count: usize,
    nanos: u128,
) -> bool {
    if has_op(before, name) {
        &&& after.len() == before.len()
        &&& forall|i: int|
            0 <= i < before.len() ==> if (#[trigger] before[i]).name@ == name {
                &&& after[i].name@ == name
                &&& after[i].count == before[i].count + count
                &&& after[i].total_nanos == saturating_sum(before[i].total_nanos, nanos)
            } else {
                after[i] == before[i]
            }
    } else {
        &&& after.len() == before.len() + 1
        &&& after.subrange(0, before.len() as int) == before
        &&& after[before.len() as int].name@ == name
        &&& after[before.len() as int].count == count
        &&& after[before.len() as int].total_nanos == nanos
    }
}

/// The lemma behind `op_count`: with distinct names, the record found for
/// `name` is the one at any index that carries it.
proof fn lemma_op_count_at(ops: Seq<OperationRecord>, name: Seq<char>, i: int)
    requires
        names_distinct(ops),
        0 <= i < ops.len(),
        ops[i].name@ == name,
    ensures
        op_count(ops, name) == ops[i].count,
{
    let k = choose|k: int| 0 <= k < ops.len() && #[trigger] ops[k].name@ == name;
    assert(ops[k].name@ == name);
}

impl RuntimeTracker {
    pub closed spec fn enabled(self) -> bool {
        self.enabled
    }

    pub closed spec fn ops(self) -> Seq<OperationRecord> {
        self.operations@
    }

    pub closed spec fn subdir_log(self) -> Seq<SubdirStats> {
        self.subdirs@
    }

    /// Well-formedness: operation names are distinct.
    pub closed spec fn wf(self) -> bool {
        names_distinct(self.operations@)
    }

    /// A tracker with nothing recorded; its clock starts now.
    pub fn new(enabled: bool) -> (t: Self)
        ensures
            t.wf(),
            t.enabled() == enabled,
            t.ops() == Seq::<OperationRecord>::empty(),
            t.subdir_log() == Seq::<SubdirStats>::empty(),
    {
        RuntimeTracker {
            enabled,
            start_time: clock_now(),
            operations: Vec::new(),
            subdirs: Vec::new(),
        }
    }

    pub fn is_enabled(&self) -> (b: bool)
        ensures
            b == self.enabled(),
    {
        self.enabled
    }

    /// The operation records, in the order the operations were first seen.
    pub fn operations(&self) -> (r: &Vec<OperationRecord>)
        ensures
            r@ == self.ops(),
    {
        &self.operations
    }

    /// The subdirectory records, in the order they were recorded.
    pub fn subdirs(&self) -> (r: &Vec<SubdirStats>)
        ensures
            r@ == self.subdir_log(),
    {
        &self.subdirs
    }

    /// The time since the tracker was made (it depends on the clock, so
    /// nothing is promised of it).
    pub fn elapsed(&self) -> Duration {
        clock_elapsed(&self.start_time)
    }

    /// Records `count` calls of `name` that took `duration_nanos`
    /// nanoseconds in all; the total time of an operation stops at the
    /// largest `u128`. A disabled tracker ignores it.
    pub fn record_op(&mut self, name: &str, duration_nanos: u128, count: usize)
        requires
            old(self).wf(),
            old(self).enabled() ==> op_count(old(self).ops(), name@) + count <= usize::MAX,
        ensures
            final(self).wf(),
            final(self).enabled() == old(self).enabled(),
            final(self).subdir_log() == old(self).subdir_log(),
            !old(self).enabled() ==> final(self).ops() == old(self).ops(),
            old(self).enabled() ==> recorded(
                old(self).ops(),
                final(self).ops(),
                name@,
                count,
                duration_nanos,
            ),
    {
        if !self.enabled {
            return;
        }
        let name_s = name.to_owned();
        let ghost before = self.operations@;
        let mut i: usize = 0;
        let mut found = false;
        while i < self.operations.len() && !found
            invariant
                self.operations@ == before,
                i <= before.len(),
                name_s@ == name@,
                !found ==> forall|k: int| 0 <= k < i ==> #[trigger] before[k].name@ != name@,
                found ==> i < before.len() && before[i as int].name@ == name@,
            decreases before.len() - i + (if found { 0int } else { 1int }),
        {
            if self.operations[i].name == name_s {
                found = true;
            } else {
                i = i + 1;
            }
        }
        if found {
            proof {
                lemma_op_count_at(before, name@, i as int);
            }
            let old_rec = self.operations.remove(i);
            let new_rec = OperationRecord {
                name: old_rec.name,
                count: old_rec.count + count,
                total_nanos: if duration_nanos > u128::MAX - old_rec.total_nanos {
                    u128::MAX
                } else {
                    old_rec.total_nanos + duration_nanos
                },
            };
            self.operations.insert(i, new_rec);
            proof {
                let after = self.operations@;
                assert forall|k: int| 0 <= k < before.len() implies if (#[trigger] before[k]).name@
                    == name@ {
                    after[k].name@ == name@ && after[k].count == before[k].count + count
                } else {
                    after[k] == before[k]
                } by {
                    if k != i {
                        assert(before[k].name@ != before[i as int].name@);
                    }
                }
                assert(has_op(before, name@)) by {
                    assert(before[i as int].name@ == name@);
                }
                assert(names_distinct(after)) by {
                    assert forall|a: int, b: int|
                        0 <= a < after.len() && 0 <= b < after.len() && a != b implies #[trigger] after[a].name@
                        != #[trigger] after[b].name@ by {
                        assert(after[a].name@ == before[a].name@);
                        assert(after[b].name@ == before[b].name@);
                    }
                }
            }
        } else {
            self.operations.push(
                OperationRecord { name: name_s, count, total_nanos: duration_nanos },
            );
            proof {
                let after = self.operations@;
                assert(!has_op(before, name@));
                assert(after.subrange(0, before.len() as int) =~= before);
                assert(names_distinct(after)) by {
                    assert forall|a: int, b: int|
                        0 <= a < after.len() && 0 <= b < after.len() && a != b implies #[trigger] after[a].name@
                        != #[trigger] after[b].name@ by {
                        if a < before.len() && b < before.len() {
                            assert(after[a] == before[a]);
                            assert(after[b] == before[b]);
                        } else if a < before.len() {
                            assert(after[a] == before[a]);
                        } else {
                            assert(after[b] == before[b]);
                        }
                    }
                }
            }
        }
    }

    /// Runs `f` and returns its result; when enabled, records one call of
    /// `name` with the time `f` took (read from the clock, so any time).
    pub fn time_op<F, R>(&mut self, name: &str, f: F) -> (r: R) where F: FnOnce() -> R
        requires
            old(self).wf(),
            f.requires(()),
            old(self).enabled() ==> op_count(old(self).ops(), name@) + 1 <= usize::MAX,
        ensures
            f.ensures((), r),
            final(self).wf(),
            final(self).enabled() == old(self).enabled(),
            final(self).subdir_log() == old(self).subdir_log(),
            !old(self).enabled() ==> final(self).ops() == old(self).ops(),
            old(self).enabled() ==> exists|nanos: u128|
                recorded(old(self).ops(), final(self).ops(), name@, 1, nanos),
    {
        if !self.enabled {
            return f();
        }
        let start = clock_now();
        let res = f();
        let dur = clock_elapsed(&start);
        self.record_op(name, whole_nanos(&dur), 1);
        res
    }

    /// Records what was done in the subdirectory `path`. A disabled tracker,
    /// or a subdirectory where nothing was preprocessed or cut, is ignored.
    pub fn record_subdir(
        &mut self,
        path: &str,
        duration: Duration,
        preprocessed_count: usize,
        cut_count: usize,
    )
        requires
            old(self).wf(),
        ensures
            final(self).wf(),
            final(self).enabled() == old(self).enabled(),
            final(self).ops() == old(self).ops(),
            !old(self).enabled() || (preprocessed_count == 0 && cut_count == 0)
                ==> final(self).subdir_log() == old(self).subdir_log(),
            old(self).enabled() && (preprocessed_count != 0 || cut_count != 0) ==> {
                let log = final(self).subdir_log();
                let n = old(self).subdir_log().len();
                &&& log.len() == n + 1
                &&& log.subrange(0, n as int) == old(self).subdir_log()
                &&& log[n as int].path@ == path@
                &&& log[n as int].duration == duration
                &&& log[n as int].preprocessed_count == preprocessed_count
                &&& log[n as int].cut_count == cut_count
            },
    {
        if !self.enabled || (preprocessed_count == 0 && cut_count == 0) {
            return;
        }
        let ghost before = self.subdirs@;
        self.subdirs.push(
            SubdirStats { path: path.to_owned(), duration, preprocessed_count, cut_count },
        );
        proof {
            assert(self.subdirs@.subrange(0, before.len() as int) =~= before);
        }
    }
}

/// Recording calls of `name` adds them to its count and leaves the counts
/// of every other name as they were.
pub proof fn lemma_recorded_counts(
    before: Seq<OperationRecord>,
    after: Seq<OperationRecord>,
    name: Seq<char>,
    count: usize,
    nanos: u128,
    other: Seq<char>,
)
    requires
        names_distinct(before),
        recorded(before, after, name, count, nanos),
        other != name,
    ensures
        names_distinct(after),
        op_count(after, name) == op_count(before, name) + count,
        op_count(after, other) == op_count(before, other),
        has_op(after, name),
{
    if has_op(before, name) {
        let i = choose|i: int| 0 <= i < before.len() && #[trigger] before[i].name@ == name;
        assert(after[i].name@ == name);
        assert(names_distinct(after)) by {
            assert forall|a: int, b: int|
                0 <= a < after.len() && 0 <= b < after.len() && a != b implies #[trigger] after[a].name@
                != #[trigger] after[b].name@ by {
                if before[a].name@ == name {
                    assert(after[a].name@ == before[a].name@);
                } else {
                    assert(after[a] == before[a]);
                }
                if before[b].name@ == name {
                    assert(after[b].name@ == before[b].name@);
                } else {
                    assert(after[b] == before[b]);
                }
            }
        }
        lemma_op_count_at(before, name, i);
        lemma_op_count_at(after, name, i);
        if has_op(before, other) {
            let j = choose|j: int| 0 <= j < before.len() && #[trigger] before[j].name@ == other;
            assert(after[j] == before[j]);
            lemma_op_count_at(before, other, j);
            lemma_op_count_at(after, other, j);
        } else {
            assert(!has_op(after, other)) by {
                if has_op(after, other) {
                    let j = choose|j: int| 0 <= j < after.len() && #[trigger] after[j].name@ == other;
                    if before[j].name@ == name {
                        assert(after[j].name@ == name);
                    } else {
                        assert(after[j] == before[j]);
                    }
                }
            }
        }
    } else {
        let n = before.len() as int;
        assert(after[n].name@ == name);
        assert forall|k: int| 0 <= k < n implies #[trigger] after[k] == before[k] by {
            assert(after.subrange(0, n)[k] == after[k]);
        }
        assert(names_distinct(after)) by {
            assert forall|a: int, b: int|
                0 <= a < after.len() && 0 <= b < after.len() && a != b implies #[trigger] after[a].name@
                != #[trigger] after[b].name@ by {
                if a < n {
                    assert(after[a] == before[a]);
                }
                if b < n {
                    assert(after[b] == before[b]);
                }
            }
        }
        lemma_op_count_at(after, name, n);
        if has_op(before, other) {
            let j = choose|j: int| 0 <= j < before.len() && #[trigger] before[j].name@ == other;
            assert(after[j] == before[j]);
            lemma_op_count_at(before, other, j);
            lemma_op_count_at(after, other, j);
        } else {
            assert(!has_op(after, other)) by {
                if has_op(after, other) {
                    let j = choose|j: int| 0 <= j < after.len() && #[trigger] after[j].name@ == other;
                    if j < n {
                        assert(after[j] == before[j]);
                    }
                }
            }
        }
    }
}

/// The layout of the runtime report on a terminal of `term_w` columns for a
/// title of `title_len` bytes: the report width (at least 50), the padding
/// that centres the title, and the widths of the subdirectory column (at
/// least 12) and of the operation column (at least 15).
pub fn report_layout(term_w: usize, title_len: usize) -> (r: (usize, usize, usize, usize))
    ensures
        r.0 == (if term_w < 50 { 50 } else { term_w }),
        r.1 == (if r.0 > title_len { (r.0 - title_len) / 2 } else { 0 }),
        r.2 == (if r.0 >= 35 + 12 { r.0 - 35 } else { 12 }),
        r.3 == (if r.0 >= 38 + 15 { r.0 - 38 } else { 15 }),
{
    let width = if term_w < 50 {
        50
    } else {
        term_w
    };
    let pad = if width > title_len {
        (width - title_len) / 2
    } else {
        0
    };
    let sub_w = if width >= 47 {
        width - 35
    } else {
        12
    };
    let op_w = if width >= 53 {
        width - 38
    } else {
        15
    };
    (width, pad, sub_w, op_w)
}

/// Encoding a concatenation concatenates the encodings.
proof fn lemma_encode_utf8_concat(a: Seq<char>, b: Seq<char>)
    ensures
        encode_utf8(a + b) == encode_utf8(a) + encode_utf8(b),
    decreases a.len(),
{
    if a.len() == 0 {
        assert(a + b =~= b);
        assert(encode_utf8(a) =~= Seq::<u8>::empty());
        assert(encode_utf8(a) + encode_utf8(b) =~= encode_utf8(b));
    } else {
        assert((a + b).drop_first() =~= a.drop_first() + b);
        assert((a + b)[0] == a[0]);
        lemma_encode_utf8_concat(a.drop_first(), b);
        assert(encode_utf8(a + b) =~= encode_utf8(a) + encode_utf8(b));
    }
}

/// A name fitted into a column of `w`: unchanged when it fits or the column
/// is too narrow for an ellipsis; otherwise `...` and the last `w - 3` bytes
/// of the name, which must start on a character boundary.
pub fn fit_name(name: &str, w: usize) -> (r: String)
    requires
        name.spec_bytes().len() > w > 3 ==> is_char_boundary(
            name.spec_bytes(),
            name.spec_bytes().len() - (w - 3),
        ),
    ensures
        name.spec_bytes().len() <= w || w <= 3 ==> r@ == name@,
        name.spec_bytes().len() > w > 3 ==> encode_utf8(r@) == encode_utf8("..."@)
            + name.spec_bytes().subrange(
            name.spec_bytes().len() - (w - 3),
            name.spec_bytes().len() as int,
        ),
{
    let n = name.as_bytes().len();
    if n <= w || w <= 3 {
        return name.to_owned();
    }
    let (_, tail) = name.split_at(n - (w - 3));
    let mut r = String::from_str("...");
    r.append(tail);
    proof {
        lemma_encode_utf8_concat("..."@, tail@);
    }
    r
}

} // verus!
