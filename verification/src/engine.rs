//! The step engine: a resumable formulation of insertion sort and of
//! queue-based Lomuto quicksort. Each call to `advance` performs at most `k`
//! primitive steps (one comparison, optionally one swap and an index move)
//! and leaves enough state behind to resume exactly where it stopped.
//!
//! The behaviour of a step is given once, as the spec function `Model::step`;
//! the executable engine is proved to follow it exactly. Well-formedness of
//! the engine state (`Model::wf`) carries the sorting invariants: a sorted
//! prefix for the insertion cursor, and for quicksort disjoint queued
//! subranges whose outside positions already hold their final values.

use vstd::prelude::*;

verus! {

/// Which sorting algorithm a seed should set up.
#[derive(Clone, Copy, Debug, PartialEq, Eq, Structural)]
pub enum Algorithm {
    Insertion,
    Quick,
}

/// One pending partition task of the quicksort engine: a subrange
/// `[low, high]` still to be partitioned, with the Lomuto scan progress in
/// it. `scan` is the boundary of the values known to be at most the pivot,
/// `compare` the next position to examine; the pivot is the value at `high`.
#[derive(Clone, Copy, Debug, PartialEq, Eq, Structural)]
pub struct Task {
    pub low: usize,
    pub high: usize,
    pub scan: usize,
    pub compare: usize,
}

/// The dataset is non-decreasing.
pub open spec fn sorted(s: Seq<u32>) -> bool {
    forall|p: int, q: int| 0 <= p < q < s.len() ==> s[p] <= s[q]
}

/// The sequence with the values at `a` and `b` exchanged.
pub open spec fn swap_seq(s: Seq<u32>, a: int, b: int) -> Seq<u32> {
    s.update(a, s[b]).update(b, s[a])
}

/// The first `bound` positions (cut off at the length) are non-decreasing.
pub open spec fn prefix_sorted(data: Seq<u32>, bound: int) -> bool {
    forall|p: int, q: int| 0 <= p < q < bound && q < data.len() ==> data[p] <= data[q]
}

/// Well-formed insertion state: the cursor sits in `[1, len]` (or stays at 1
/// over an empty dataset) and everything strictly before it is sorted.
pub open spec fn insert_wf(data: Seq<u32>, cursor: int) -> bool {
    &&& 1 <= cursor
    &&& cursor <= data.len() || cursor == 1
    &&& prefix_sorted(data, cursor)
}

/// Position `p` lies in the subrange of task `t`.
pub open spec fn in_task(t: Task, p: int) -> bool {
    t.low as int <= p && p <= t.high as int
}

/// Some queued task covers both positions.
pub open spec fn same_task(tasks: Seq<Task>, p: int, q: int) -> bool {
    exists|i: int|
        0 <= i < tasks.len() && #[trigger] in_task(tasks[i], p) && in_task(tasks[i], q)
}

/// Some queued task covers the position.
pub open spec fn covered(tasks: Seq<Task>, p: int) -> bool {
    exists|i: int| 0 <= i < tasks.len() && #[trigger] in_task(tasks[i], p)
}

/// The queued subranges do not overlap.
pub open spec fn tasks_disjoint(tasks: Seq<Task>) -> bool {
    forall|i: int, j: int, p: int|
        #![trigger in_task(tasks[i], p), in_task(tasks[j], p)]
        0 <= i < j < tasks.len() && in_task(tasks[i], p) ==> !in_task(tasks[j], p)
}

/// The pointers of a task are ordered and stay inside the dataset.
pub open spec fn task_in_bounds(t: Task, n: int) -> bool {
    &&& t.low <= t.scan
    &&& t.scan <= t.compare
    &&& t.compare <= t.high
    &&& (t.high as int) < n
}

/// The Lomuto scan progress of a task: positions before `scan` hold values at
/// most the pivot, positions from `scan` up to `compare` hold values above it.
pub open spec fn task_scanned(t: Task, data: Seq<u32>) -> bool {
    &&& forall|p: int|
        t.low as int <= p && p < t.scan as int ==> #[trigger] data[p] <= data[t.high as int]
    &&& forall|p: int|
        t.scan as int <= p && p < t.compare as int ==> #[trigger] data[p] > data[t.high as int]
}

/// Positions that no single queued task covers together are already ordered:
/// in particular every position outside all queued subranges holds its final
/// value.
pub open spec fn cross_ordered(data: Seq<u32>, tasks: Seq<Task>) -> bool {
    forall|p: int, q: int|
        #![trigger same_task(tasks, p, q)]
        0 <= p < q < data.len() && !same_task(tasks, p, q) ==> data[p] <= data[q]
}

/// Well-formed quicksort state.
pub open spec fn quick_wf(data: Seq<u32>, tasks: Seq<Task>) -> bool {
    &&& forall|i: int|
        0 <= i < tasks.len() ==> task_in_bounds(#[trigger] tasks[i], data.len() as int)
    &&& forall|i: int| 0 <= i < tasks.len() ==> task_scanned(#[trigger] tasks[i], data)
    &&& tasks_disjoint(tasks)
    &&& cross_ordered(data, tasks)
}

/// One primitive insertion-sort step: compare the cursor with its left
/// neighbour, swap and move left (never below 1), or move right; at the end
/// of the dataset nothing happens.
pub open spec fn insertion_step(data: Seq<u32>, cursor: int) -> (Seq<u32>, int) {
    if cursor >= data.len() {
        (data, cursor)
    } else if data[cursor] < data[cursor - 1] {
        (swap_seq(data, cursor - 1, cursor), if cursor == 1 { 1int } else { cursor - 1 })
    } else {
        (data, cursor + 1)
    }
}

/// One primitive quicksort step on the front task: pop a trivial subrange,
/// advance the Lomuto scan by one comparison, or place the pivot and spawn
/// the left subrange at the front of the queue and the right one at the back.
pub open spec fn quick_step(data: Seq<u32>, tasks: Seq<Task>) -> (Seq<u32>, Seq<Task>) {
    if tasks.len() == 0 {
        (data, tasks)
    } else {
        let t = tasks[0];
        if t.low >= t.high {
            (data, tasks.drop_first())
        } else if (t.compare as int) < (t.high as int) {
            if data[t.compare as int] <= data[t.high as int] {
                (
                    swap_seq(data, t.scan as int, t.compare as int),
                    tasks.update(
                        0,
                        Task {
                            low: t.low,
                            high: t.high,
                            scan: (t.scan + 1) as usize,
                            compare: (t.compare + 1) as usize,
                        },
                    ),
                )
            } else {
                (
                    data,
                    tasks.update(
                        0,
                        Task {
                            low: t.low,
                            high: t.high,
                            scan: t.scan,
                            compare: (t.compare + 1) as usize,
                        },
                    ),
                )
            }
        } else {
            let d2 = swap_seq(data, t.scan as int, t.high as int);
            let rest = tasks.drop_first();
            let with_left = if t.scan > t.low {
                seq![
                    Task {
                        low: t.low,
                        high: (t.scan - 1) as usize,
                        scan: t.low,
                        compare: t.low,
                    },
                ] + rest
            } else {
                rest
            };
            let with_right = if (t.scan as int) < (t.high as int) {
                with_left.push(
                    Task {
                        low: (t.scan + 1) as usize,
                        high: t.high,
                        scan: (t.scan + 1) as usize,
                        compare: (t.scan + 1) as usize,
                    },
                )
            } else {
                with_left
            };
            (d2, with_right)
        }
    }
}

/// The resumable progress of whichever algorithm is active.
pub enum Progress {
    Insertion { cursor: int },
    Quick { tasks: Seq<Task> },
}

/// The mathematical state of the step engine: the dataset together with the
/// progress of the active algorithm.
pub struct Model {
    pub data: Seq<u32>,
    pub progress: Progress,
}

impl Model {
    /// The engine has nothing left to do.
    pub open spec fn complete(self) -> bool {
        match self.progress {
            Progress::Insertion { cursor } => cursor >= self.data.len(),
            Progress::Quick { tasks } => tasks.len() == 0,
        }
    }

    /// One primitive step; a completed engine is left unchanged.
    pub open spec fn step(self) -> Model {
        match self.progress {
            Progress::Insertion { cursor } => {
                let r = insertion_step(self.data, cursor);
                Model { data: r.0, progress: Progress::Insertion { cursor: r.1 } }
            }
            Progress::Quick { tasks } => {
                let r = quick_step(self.data, tasks);
                Model { data: r.0, progress: Progress::Quick { tasks: r.1 } }
            }
        }
    }

    /// `k` primitive steps in a row.
    pub open spec fn advance(self, k: nat) -> Model
        decreases k,
    {
        if k == 0 {
            self
        } else {
            self.advance((k - 1) as nat).step()
        }
    }

    /// The sorting invariant of the active algorithm.
    pub open spec fn wf(self) -> bool {
        match self.progress {
            Progress::Insertion { cursor } => insert_wf(self.data, cursor),
            Progress::Quick { tasks } => quick_wf(self.data, tasks),
        }
    }
}

/// The initial progress when sorting starts: cursor 1, or one task covering
/// the whole dataset (none at all when the dataset is empty).
pub open spec fn seed_progress(alg: Algorithm, n: int) -> Progress {
    match alg {
        Algorithm::Insertion => Progress::Insertion { cursor: 1 },
        Algorithm::Quick => Progress::Quick {
            tasks: if n == 0 {
                Seq::empty()
            } else {
                seq![Task { low: 0, high: (n - 1) as usize, scan: 0, compare: 0 }]
            },
        },
    }
}

/// Exchanging two values of a sequence does not change its multiset.
pub proof fn lemma_swap_multiset(s: Seq<u32>, a: int, b: int)
    requires
        0 <= a < s.len(),
        0 <= b < s.len(),
    ensures
        swap_seq(s, a, b).to_multiset() == s.to_multiset(),
        swap_seq(s, a, b).len() == s.len(),
{
    broadcast use vstd::seq_lib::group_to_multiset_ensures;
    broadcast use vstd::multiset::group_multiset_axioms;

    let s1 = s.update(a, s[b]);
    vstd::seq_lib::to_multiset_update(s, a, s[b]);
    vstd::seq_lib::to_multiset_update(s1, b, s[a]);
    assert(s.contains(s[a]));
    assert(s1.contains(s1[b]));
    assert(swap_seq(s, a, b).to_multiset() =~= s.to_multiset());
}

/// A position inside the front task shares no task with a position outside
/// the front task, since the queued subranges do not overlap.
proof fn lemma_not_same_with_front(tasks: Seq<Task>, x: int, y: int)
    requires
        tasks_disjoint(tasks),
        tasks.len() > 0,
        in_task(tasks[0], x),
        !in_task(tasks[0], y),
    ensures
        !same_task(tasks, x, y),
        !same_task(tasks, y, x),
{
    if same_task(tasks, x, y) {
        let i = choose|i: int|
            0 <= i < tasks.len() && #[trigger] in_task(tasks[i], x) && in_task(tasks[i], y);
        if i == 0 {
            assert(false);
        } else {
            assert(in_task(tasks[0], x) && in_task(tasks[i], x));
            assert(false);
        }
    }
    if same_task(tasks, y, x) {
        let i = choose|i: int|
            0 <= i < tasks.len() && #[trigger] in_task(tasks[i], y) && in_task(tasks[i], x);
        if i == 0 {
            assert(false);
        } else {
            assert(in_task(tasks[0], x) && in_task(tasks[i], x));
            assert(false);
        }
    }
}

/// Replacing the front task by one with the same subrange changes neither
/// which positions share a task nor disjointness.
proof fn lemma_update_front_same_range(tasks: Seq<Task>, t2: Task)
    requires
        tasks.len() > 0,
        t2.low == tasks[0].low,
        t2.high == tasks[0].high,
    ensures
        forall|p: int, q: int|
            same_task(tasks.update(0, t2), p, q) == #[trigger] same_task(tasks, p, q),
        tasks_disjoint(tasks) ==> tasks_disjoint(tasks.update(0, t2)),
{
    let tasks2 = tasks.update(0, t2);
    assert forall|i: int, p: int| 0 <= i < tasks.len() implies #[trigger] in_task(
        tasks2[i],
        p,
    ) == in_task(tasks[i], p) by {}
    assert forall|p: int, q: int|
        same_task(tasks2, p, q) == #[trigger] same_task(tasks, p, q) by {
        if same_task(tasks, p, q) {
            let i = choose|i: int|
                0 <= i < tasks.len() && #[trigger] in_task(tasks[i], p) && in_task(tasks[i], q);
            assert(in_task(tasks2[i], p) && in_task(tasks2[i], q));
        }
        if same_task(tasks2, p, q) {
            let i = choose|i: int|
                0 <= i < tasks2.len() && #[trigger] in_task(tasks2[i], p) && in_task(tasks2[i], q);
            assert(in_task(tasks[i], p) && in_task(tasks[i], q));
        }
    }
}

/// Swapping two positions of the front task's subrange keeps the cross-task
/// ordering and the scan progress of every other task.
proof fn lemma_swap_in_front(data: Seq<u32>, tasks: Seq<Task>, a: int, b: int)
    requires
        quick_wf(data, tasks),
        tasks.len() > 0,
        in_task(tasks[0], a),
        in_task(tasks[0], b),
    ensures
        cross_ordered(swap_seq(data, a, b), tasks),
        forall|i: int|
            1 <= i < tasks.len() ==> task_scanned(#[trigger] tasks[i], swap_seq(data, a, b)),
        swap_seq(data, a, b).to_multiset() == data.to_multiset(),
        swap_seq(data, a, b).len() == data.len(),
{
    let d2 = swap_seq(data, a, b);
    assert(task_in_bounds(tasks[0], data.len() as int));
    lemma_swap_multiset(data, a, b);
    assert forall|p: int, q: int|
        0 <= p < q < d2.len() && !same_task(tasks, p, q) implies d2[p] <= d2[q] by {
        if p == a || p == b {
            assert(in_task(tasks[0], p));
            if in_task(tasks[0], q) {
                assert(same_task(tasks, p, q));
                assert(false);
            }
            let src = if p == a { b } else { a };
            lemma_not_same_with_front(tasks, src, q);
            assert(d2[p] == data[src]);
            assert(d2[q] == data[q]);
            assert(data[src] <= data[q]);
        } else if q == a || q == b {
            assert(in_task(tasks[0], q));
            if in_task(tasks[0], p) {
                assert(same_task(tasks, p, q));
                assert(false);
            }
            let src = if q == a { b } else { a };
            lemma_not_same_with_front(tasks, src, p);
            assert(d2[q] == data[src]);
            assert(d2[p] == data[p]);
            assert(data[p] <= data[src]);
        } else {
            assert(d2[p] == data[p] && d2[q] == data[q]);
            assert(data[p] <= data[q]);
        }
    }
    assert forall|i: int| 1 <= i < tasks.len() implies task_scanned(
        #[trigger] tasks[i],
        d2,
    ) by {
        let t = tasks[i];
        assert(task_scanned(t, data));
        assert(task_in_bounds(t, data.len() as int));
        assert forall|p: int| in_task(t, p) implies d2[p] == data[p] by {
            assert(in_task(tasks[i], p));
            if p == a || p == b {
                assert(in_task(tasks[0], p) && in_task(tasks[i], p));
                assert(false);
            }
        }
        assert(in_task(t, t.high as int));
        assert(d2[t.high as int] == data[t.high as int]);
        let h = t.high as int;
        assert forall|p: int|
            t.low as int <= p && p < t.scan as int implies #[trigger] d2[p] <= d2[h] by {
            assert(in_task(t, p));
            assert(data[p] <= data[t.high as int]);
        }
        assert forall|p: int|
            t.scan as int <= p && p < t.compare as int implies #[trigger] d2[p] > d2[h] by {
            assert(in_task(t, p));
            assert(data[p] > data[t.high as int]);
        }
    }
}

/// Popping a trivial front task (a subrange of at most one position) keeps
/// the quicksort invariant.
proof fn lemma_quick_pop_trivial(data: Seq<u32>, tasks: Seq<Task>)
    requires
        quick_wf(data, tasks),
        tasks.len() > 0,
        tasks[0].low >= tasks[0].high,
    ensures
        quick_wf(data, tasks.drop_first()),
{
    let rest = tasks.drop_first();
    assert(task_in_bounds(tasks[0], data.len() as int));
    assert forall|i: int| 0 <= i < rest.len() implies task_in_bounds(
        #[trigger] rest[i],
        data.len() as int,
    ) && task_scanned(rest[i], data) by {
        assert(rest[i] == tasks[i + 1]);
    }
    assert forall|i: int, j: int, p: int|
        0 <= i < j < rest.len() && in_task(rest[i], p) implies !in_task(rest[j], p) by {
        assert(rest[i] == tasks[i + 1] && rest[j] == tasks[j + 1]);
        assert(in_task(tasks[i + 1], p));
    }
    assert forall|p: int, q: int|
        0 <= p < q < data.len() && !same_task(rest, p, q) implies data[p] <= data[q] by {
        if same_task(tasks, p, q) {
            let i = choose|i: int|
                0 <= i < tasks.len() && #[trigger] in_task(tasks[i], p) && in_task(tasks[i], q);
            if i == 0 {
                assert(p == q);
                assert(false);
            } else {
                assert(rest[i - 1] == tasks[i]);
                assert(in_task(rest[i - 1], p) && in_task(rest[i - 1], q));
                assert(same_task(rest, p, q));
                assert(false);
            }
        }
    }
}

/// One Lomuto comparison step on the front task keeps the quicksort
/// invariant and the dataset's multiset.
proof fn lemma_quick_scan(data: Seq<u32>, tasks: Seq<Task>)
    requires
        quick_wf(data, tasks),
        tasks.len() > 0,
        tasks[0].low < tasks[0].high,
        (tasks[0].compare as int) < (tasks[0].high as int),
    ensures
        ({
            let r = quick_step(data, tasks);
            quick_wf(r.0, r.1) && r.0.to_multiset() == data.to_multiset() && r.0.len()
                == data.len()
        }),
{
    let t = tasks[0];
    let n = data.len() as int;
    let a = t.scan as int;
    let c = t.compare as int;
    let h = t.high as int;
    assert(task_in_bounds(tasks[0], n));
    assert(task_scanned(tasks[0], data));
    let r = quick_step(data, tasks);
    if data[c] <= data[h] {
        let d2 = swap_seq(data, a, c);
        let t2 = Task {
            low: t.low,
            high: t.high,
            scan: (t.scan + 1) as usize,
            compare: (t.compare + 1) as usize,
        };
        let tasks2 = tasks.update(0, t2);
        assert(r == (d2, tasks2));
        lemma_swap_in_front(data, tasks, a, c);
        lemma_update_front_same_range(tasks, t2);
        assert forall|i: int| 0 <= i < tasks2.len() implies task_in_bounds(
            #[trigger] tasks2[i],
            n,
        ) by {
            if i != 0 {
                assert(task_in_bounds(tasks[i], n));
            }
        }
        assert forall|p: int, q: int|
            0 <= p < q < d2.len() && !same_task(tasks2, p, q) implies d2[p] <= d2[q] by {
            assert(same_task(tasks2, p, q) == same_task(tasks, p, q));
        }
        // scan progress of the updated front task
        assert(d2[h] == data[h]);
        assert forall|p: int|
            t2.low as int <= p && p < t2.scan as int implies #[trigger] d2[p] <= d2[
            t2.high as int] by {
            if p == a {
                assert(d2[a] == data[c]);
            } else {
                assert(d2[p] == data[p]);
                assert(data[p] <= data[h]);
            }
        }
        assert forall|p: int|
            t2.scan as int <= p && p < t2.compare as int implies #[trigger] d2[p] > d2[
            t2.high as int] by {
            if p == c {
                assert(a < c);
                assert(d2[c] == data[a]);
                assert(data[a] > data[h]);
            } else {
                assert(d2[p] == data[p]);
                assert(data[p] > data[h]);
            }
        }
        assert forall|i: int| 0 <= i < tasks2.len() implies task_scanned(
            #[trigger] tasks2[i],
            d2,
        ) by {
            if i != 0 {
                assert(tasks2[i] == tasks[i]);
                assert(task_scanned(tasks[i], d2));
            } else {
                assert(tasks2[0] == t2);
            }
        }
    } else {
        let t2 = Task {
            low: t.low,
            high: t.high,
            scan: t.scan,
            compare: (t.compare + 1) as usize,
        };
        let tasks2 = tasks.update(0, t2);
        assert(r == (data, tasks2));
        lemma_update_front_same_range(tasks, t2);
        assert forall|i: int| 0 <= i < tasks2.len() implies task_in_bounds(
            #[trigger] tasks2[i],
            n,
        ) && task_scanned(tasks2[i], data) by {
            if i != 0 {
                assert(task_in_bounds(tasks[i], n));
                assert(task_scanned(tasks[i], data));
            } else {
                assert(tasks2[0] == t2);
                assert forall|p: int|
                    t2.scan as int <= p && p < t2.compare as int implies #[trigger] data[p]
                    > data[t2.high as int] by {
                    if p == c {
                        assert(data[c] > data[h]);
                    }
                }
            }
        }
        assert forall|p: int, q: int|
            0 <= p < q < data.len() && !same_task(tasks2, p, q) implies data[p] <= data[q] by {
            assert(same_task(tasks2, p, q) == same_task(tasks, p, q));
        }
    }
}

/// Placing the pivot of the front task in its final position and queueing
/// the left and right subranges keeps the quicksort invariant and the
/// dataset's multiset.
proof fn lemma_quick_finalize(data: Seq<u32>, tasks: Seq<Task>)
    requires
        quick_wf(data, tasks),
        tasks.len() > 0,
        tasks[0].low < tasks[0].high,
        (tasks[0].compare as int) >= (tasks[0].high as int),
    ensures
        ({
            let r = quick_step(data, tasks);
            quick_wf(r.0, r.1) && r.0.to_multiset() == data.to_multiset() && r.0.len()
                == data.len()
        }),
{
    let t = tasks[0];
    let n = data.len() as int;
    let a = t.scan as int;
    let h = t.high as int;
    let lo = t.low as int;
    assert(task_in_bounds(tasks[0], n));
    assert(task_scanned(tasks[0], data));
    assert(t.compare as int == h);
    let d2 = swap_seq(data, a, h);
    lemma_swap_in_front(data, tasks, a, h);
    // the pivot lands at `a`, above everything left of it in the subrange
    assert(d2[a] == data[h]);
    assert forall|p: int| lo <= p < a implies #[trigger] d2[p] <= d2[a] by {
        assert(d2[p] == data[p]);
        assert(data[p] <= data[h]);
    }
    // and below everything right of it in the subrange
    assert forall|p: int| a < p <= h implies #[trigger] d2[p] >= d2[a] by {
        if p == h {
            assert(d2[h] == data[a]);
            assert(data[a] > data[h]);
        } else {
            assert(d2[p] == data[p]);
            assert(data[p] > data[h]);
        }
    }
    let r = quick_step(data, tasks);
    let rest = tasks.drop_first();
    let has_left = t.scan > t.low;
    let has_right = a < h;
    let left_t = Task { low: t.low, high: (t.scan - 1) as usize, scan: t.low, compare: t.low };
    let right_t = Task {
        low: (t.scan + 1) as usize,
        high: t.high,
        scan: (t.scan + 1) as usize,
        compare: (t.scan + 1) as usize,
    };
    let off: int = if has_left { 1 } else { 0 };
    let tasks2 = r.1;
    assert(r.0 == d2);
    assert(tasks2.len() == off + rest.len() + if has_right { 1int } else { 0 });
    assert forall|i: int| 0 <= i < rest.len() implies #[trigger] rest[i] == tasks[i + 1] by {}
    // where each task of the new queue comes from
    assert forall|i: int| 0 <= i < tasks2.len() implies ({
        ||| (has_left && i == 0 && tasks2[i] == left_t)
        ||| (has_right && i == tasks2.len() - 1 && tasks2[i] == right_t)
        ||| (off <= i < off + rest.len() && tasks2[i] == tasks[i + 1 - off])
    }) by {}
    // every new task is in bounds with its scan progress intact
    assert forall|i: int| 0 <= i < tasks2.len() implies task_in_bounds(
        #[trigger] tasks2[i],
        n,
    ) && task_scanned(tasks2[i], d2) by {
        if has_left && i == 0 && tasks2[i] == left_t {
        } else if has_right && i == tasks2.len() - 1 && tasks2[i] == right_t {
        } else {
            assert(off <= i < off + rest.len() && tasks2[i] == tasks[i + 1 - off]);
            assert(task_in_bounds(tasks[i + 1 - off], n));
            assert(task_scanned(tasks[i + 1 - off], d2));
        }
    }
    // the new subranges do not overlap
    assert forall|i: int, j: int, p: int|
        0 <= i < j < tasks2.len() && in_task(tasks2[i], p) implies !in_task(tasks2[j], p) by {
        if in_task(tasks2[j], p) {
            if has_left && i == 0 && tasks2[i] == left_t {
                if has_right && j == tasks2.len() - 1 && tasks2[j] == right_t {
                    assert(p <= a - 1 && p >= a + 1);
                } else {
                    assert(off <= j < off + rest.len() && tasks2[j] == tasks[j + 1 - off]);
                    assert(in_task(tasks[0], p));
                    assert(in_task(tasks[j + 1 - off], p));
                }
            } else if has_right && j == tasks2.len() - 1 && tasks2[j] == right_t {
                assert(off <= i < off + rest.len() && tasks2[i] == tasks[i + 1 - off]);
                assert(in_task(tasks[0], p));
                assert(in_task(tasks[i + 1 - off], p));
            } else {
                assert(off <= i < off + rest.len() && tasks2[i] == tasks[i + 1 - off]);
                assert(off <= j < off + rest.len() && tasks2[j] == tasks[j + 1 - off]);
                assert(in_task(tasks[i + 1 - off], p));
            }
            assert(false);
        }
    }
    // positions that no longer share a task are ordered
    assert forall|p: int, q: int|
        0 <= p < q < n && !same_task(tasks2, p, q) implies d2[p] <= d2[q] by {
        if same_task(tasks, p, q) {
            let i = choose|i: int|
                0 <= i < tasks.len() && #[trigger] in_task(tasks[i], p) && in_task(tasks[i], q);
            if i == 0 {
                if q < a {
                    assert(has_left);
                    assert(tasks2[0] == left_t);
                    assert(in_task(tasks2[0], p) && in_task(tasks2[0], q));
                    assert(same_task(tasks2, p, q));
                    assert(false);
                } else if p > a {
                    assert(has_right);
                    let last = tasks2.len() - 1;
                    assert(tasks2[last] == right_t);
                    assert(in_task(tasks2[last], p) && in_task(tasks2[last], q));
                    assert(same_task(tasks2, p, q));
                    assert(false);
                } else if p == a {
                    assert(d2[q] >= d2[a]);
                } else if q == a {
                    assert(d2[p] <= d2[a]);
                } else {
                    assert(d2[p] <= d2[a] && d2[a] <= d2[q]);
                }
            } else {
                assert(tasks2[i - 1 + off] == tasks[i]);
                assert(in_task(tasks2[i - 1 + off], p) && in_task(tasks2[i - 1 + off], q));
                assert(same_task(tasks2, p, q));
                assert(false);
            }
        } else {
            assert(d2[p] <= d2[q]);
        }
    }
}

/// One primitive step keeps the active algorithm, the invariant, and the
/// dataset's multiset of values.
pub proof fn lemma_step_preserves(m: Model)
    requires
        m.wf(),
    ensures
        m.step().wf(),
        m.step().data.to_multiset() == m.data.to_multiset(),
        m.step().data.len() == m.data.len(),
        (m.step().progress is Insertion) == (m.progress is Insertion),
        m.complete() ==> m.step() == m,
{
    match m.progress {
        Progress::Insertion { cursor } => {
            let data = m.data;
            if cursor >= data.len() {
            } else if data[cursor] < data[cursor - 1] {
                let d2 = swap_seq(data, cursor - 1, cursor);
                let c2: int = if cursor == 1 { 1 } else { cursor - 1 };
                lemma_swap_multiset(data, cursor - 1, cursor);
                assert forall|p: int, q: int|
                    0 <= p < q < c2 && q < d2.len() implies d2[p] <= d2[q] by {
                    assert(d2[p] == data[p] && d2[q] == data[q]);
                }
            } else {
                let c2 = cursor + 1;
                assert forall|p: int, q: int|
                    0 <= p < q < c2 && q < data.len() implies data[p] <= data[q] by {
                    if q == cursor {
                        if p < cursor - 1 {
                            assert(data[p] <= data[cursor - 1]);
                        }
                    }
                }
            }
        }
        Progress::Quick { tasks } => {
            if tasks.len() == 0 {
            } else {
                let t = tasks[0];
                assert(task_in_bounds(tasks[0], m.data.len() as int));
                if t.low >= t.high {
                    lemma_quick_pop_trivial(m.data, tasks);
                } else if (t.compare as int) < (t.high as int) {
                    lemma_quick_scan(m.data, tasks);
                } else {
                    lemma_quick_finalize(m.data, tasks);
                }
            }
        }
    }
}

/// `advance` keeps the active algorithm, the invariant, and the dataset's
/// multiset of values.
pub proof fn lemma_advance_preserves(m: Model, k: nat)
    requires
        m.wf(),
    ensures
        m.advance(k).wf(),
        m.advance(k).data.to_multiset() == m.data.to_multiset(),
        m.advance(k).data.len() == m.data.len(),
        (m.advance(k).progress is Insertion) == (m.progress is Insertion),
    decreases k,
{
    if k > 0 {
        lemma_advance_preserves(m, (k - 1) as nat);
        lemma_step_preserves(m.advance((k - 1) as nat));
    }
}

/// Batching law: advancing `a` steps and then `b` more reaches exactly the
/// state of advancing `a + b` steps at once, however the budget is split.
pub proof fn lemma_advance_batching(m: Model, a: nat, b: nat)
    ensures
        m.advance(a).advance(b) == m.advance(a + b),
    decreases b,
{
    if b > 0 {
        lemma_advance_batching(m, a, (b - 1) as nat);
    }
}

/// A completed engine never restarts: advancing it any further is a no-op.
pub proof fn lemma_complete_stable(m: Model, k: nat)
    requires
        m.complete(),
    ensures
        m.advance(k) == m,
    decreases k,
{
    if k > 0 {
        lemma_complete_stable(m, (k - 1) as nat);
    }
}

/// When a well-formed engine signals completion, the dataset is sorted.
pub proof fn lemma_complete_sorted(m: Model)
    requires
        m.wf(),
        m.complete(),
    ensures
        sorted(m.data),
{
    match m.progress {
        Progress::Insertion { cursor } => {
            assert forall|p: int, q: int|
                0 <= p < q < m.data.len() implies m.data[p] <= m.data[q] by {
                assert(q < cursor);
            }
        }
        Progress::Quick { tasks } => {
            assert forall|p: int, q: int|
                0 <= p < q < m.data.len() implies m.data[p] <= m.data[q] by {
                assert(!same_task(tasks, p, q));
            }
        }
    }
}

/// The freshly seeded engine is well formed over any dataset.
pub proof fn lemma_seed_wf(alg: Algorithm, data: Seq<u32>)
    requires
        data.len() <= usize::MAX,
    ensures
        (Model { data, progress: seed_progress(alg, data.len() as int) }).wf(),
{
    let n = data.len() as int;
    match alg {
        Algorithm::Insertion => {
        }
        Algorithm::Quick => {
            if n > 0 {
                let tasks = seq![
                    Task { low: 0, high: (n - 1) as usize, scan: 0, compare: 0 },
                ];
                assert forall|p: int, q: int|
                    0 <= p < q < data.len() && !same_task(tasks, p, q) implies data[p]
                    <= data[q] by {
                    assert(in_task(tasks[0], p) && in_task(tasks[0], q));
                    assert(same_task(tasks, p, q));
                }
                assert(quick_wf(data, tasks));
            }
        }
    }
}

/// Sort correctness: from any well-formed engine state, the dataset always
/// keeps exactly the multiset of values it started with, and once the
/// engine reports completion — after however many primitive steps, batched
/// however the caller likes — the dataset is non-decreasing.
pub proof fn lemma_sort_correctness(m: Model, k: nat)
    requires
        m.wf(),
    ensures
        m.advance(k).data.to_multiset() == m.data.to_multiset(),
        m.advance(k).complete() ==> sorted(m.advance(k).data),
{
    lemma_advance_preserves(m, k);
    if m.advance(k).complete() {
        lemma_complete_sorted(m.advance(k));
    }
}

/// The quick-task invariant: while quicksort runs, the queued subranges are
/// pairwise disjoint (part of `quick_wf`), and together with the already
/// finalized positions they account for the whole index range: every
/// position `p` covered by no queued task already holds its final value,
/// sitting above everything before it and below everything after it.
pub proof fn lemma_quick_task_invariant(data: Seq<u32>, tasks: Seq<Task>, p: int, q: int)
    requires
        quick_wf(data, tasks),
        0 <= p < data.len(),
        0 <= q < data.len(),
        !covered(tasks, p),
    ensures
        q < p ==> data[q] <= data[p],
        p < q ==> data[p] <= data[q],
{
    if same_task(tasks, p, q) {
        let i = choose|i: int|
            0 <= i < tasks.len() && #[trigger] in_task(tasks[i], p) && in_task(tasks[i], q);
        assert(covered(tasks, p));
    }
    if same_task(tasks, q, p) {
        let i = choose|i: int|
            0 <= i < tasks.len() && #[trigger] in_task(tasks[i], q) && in_task(tasks[i], p);
        assert(covered(tasks, p));
    }
}

/// Exchange the values at `a` and `b`.
fn swap_in(data: &mut Vec<u32>, a: usize, b: usize)
    requires
        a < old(data).len(),
        b < old(data).len(),
    ensures
        final(data)@ == swap_seq(old(data)@, a as int, b as int),
{
    let va = data[a];
    let vb = data[b];
    data[a] = vb;
    data[b] = va;
}

/// The resumable state of the active sorting algorithm: an insertion cursor,
/// or the FIFO queue of pending quicksort partition tasks.
#[derive(Debug)]
pub enum Engine {
    Insertion { cursor: usize },
    Quick { tasks: Vec<Task> },
}

impl Engine {
    /// The progress this engine state stands for.
    pub open spec fn form(self) -> Progress {
        match self {
            Engine::Insertion { cursor } => Progress::Insertion { cursor: cursor as int },
            Engine::Quick { tasks } => Progress::Quick { tasks: tasks@ },
        }
    }

    /// The mathematical state of this engine over the given dataset.
    pub open spec fn model(self, data: Seq<u32>) -> Model {
        Model { data, progress: self.form() }
    }

    /// A fresh engine for the given algorithm over a dataset of `n`
    /// elements: cursor 1, or a single task covering the whole dataset.
    pub fn seed(alg: Algorithm, n: usize) -> (e: Engine)
        ensures
            e.form() == seed_progress(alg, n as int),
    {
        match alg {
            Algorithm::Insertion => Engine::Insertion { cursor: 1 },
            Algorithm::Quick => {
                let mut tasks: Vec<Task> = Vec::new();
                if n > 0 {
                    tasks.push(Task { low: 0, high: n - 1, scan: 0, compare: 0 });
                    proof {
                        assert(tasks@ =~= seq![
                            Task { low: 0, high: (n - 1) as usize, scan: 0, compare: 0 },
                        ]);
                    }
                }
                Engine::Quick { tasks }
            }
        }
    }

    /// Advance by at most `k` primitive steps, mutating the dataset in
    /// place; a completed engine is left untouched. Returns whether the
    /// engine is complete afterwards, and on completion the dataset is
    /// sorted; the dataset always keeps exactly its old values, rearranged.
    pub fn advance(&mut self, data: &mut Vec<u32>, k: usize) -> (complete: bool)
        requires
            old(self).model(old(data)@).wf(),
        ensures
            final(self).model(final(data)@) == old(self).model(old(data)@).advance(k as nat),
            final(self).model(final(data)@).wf(),
            final(data)@.to_multiset() == old(data)@.to_multiset(),
            final(data)@.len() == old(data)@.len(),
            complete == final(self).model(final(data)@).complete(),
            complete ==> sorted(final(data)@),
    {
        let ghost m0 = self.model(data@);
        let complete = match self {
            Engine::Insertion { cursor } => advance_insertion(data, cursor, k),
            Engine::Quick { tasks } => advance_quick(data, tasks, k),
        };
        proof {
            lemma_advance_preserves(m0, k as nat);
            if complete {
                lemma_complete_sorted(m0.advance(k as nat));
            }
        }
        complete
    }
}

/// The insertion-sort loop: up to `k` single-comparison steps of the cursor.
#[verifier::loop_isolation(false)]
fn advance_insertion(data: &mut Vec<u32>, cursor: &mut usize, k: usize) -> (complete: bool)
    requires
        insert_wf(old(data)@, *old(cursor) as int),
    ensures
        ({
            let m0 = Model {
                data: old(data)@,
                progress: Progress::Insertion { cursor: *old(cursor) as int },
            };
            let m1 = Model {
                data: final(data)@,
                progress: Progress::Insertion { cursor: *final(cursor) as int },
            };
            m1 == m0.advance(k as nat) && complete == m1.complete()
        }),
{
    let ghost m0 = Model { data: data@, progress: Progress::Insertion { cursor: *cursor as int } };
    let mut j: usize = 0;
    while j < k
        invariant
            j <= k,
            m0.wf(),
            (Model { data: data@, progress: Progress::Insertion { cursor: *cursor as int } })
                == m0.advance(j as nat),
        decreases k - j,
    {
        let ghost mj = m0.advance(j as nat);
        proof {
            lemma_advance_preserves(m0, j as nat);
        }
        if *cursor >= data.len() {
            proof {
                lemma_complete_stable(mj, (k - j) as nat);
                lemma_advance_batching(m0, j as nat, (k - j) as nat);
            }
            return true;
        }
        let c = *cursor;
        if data[c] < data[c - 1] {
            swap_in(data, c - 1, c);
            if c != 1 {
                *cursor = c - 1;
            }
        } else {
            *cursor = c + 1;
        }
        j += 1;
        proof {
            assert(m0.advance(j as nat) == mj.step());
        }
    }
    *cursor >= data.len()
}

/// The quicksort loop: up to `k` primitive steps on the front of the task
/// queue.
#[verifier::loop_isolation(false)]
fn advance_quick(data: &mut Vec<u32>, tasks: &mut Vec<Task>, k: usize) -> (complete: bool)
    requires
        quick_wf(old(data)@, old(tasks)@),
    ensures
        ({
            let m0 = Model {
                data: old(data)@,
                progress: Progress::Quick { tasks: old(tasks)@ },
            };
            let m1 = Model {
                data: final(data)@,
                progress: Progress::Quick { tasks: final(tasks)@ },
            };
            m1 == m0.advance(k as nat) && complete == m1.complete()
        }),
{
    let ghost m0 = Model { data: data@, progress: Progress::Quick { tasks: tasks@ } };
    let mut j: usize = 0;
    while j < k
        invariant
            j <= k,
            m0.wf(),
            (Model { data: data@, progress: Progress::Quick { tasks: tasks@ } })
                == m0.advance(j as nat),
        decreases k - j,
    {
        let ghost mj = m0.advance(j as nat);
        proof {
            lemma_advance_preserves(m0, j as nat);
        }
        if tasks.len() == 0 {
            proof {
                lemma_complete_stable(mj, (k - j) as nat);
                lemma_advance_batching(m0, j as nat, (k - j) as nat);
            }
            return true;
        }
        let t = tasks[0];
        proof {
            assert(task_in_bounds(tasks@[0], data@.len() as int));
        }
        if t.low >= t.high {
            tasks.remove(0);
            proof {
                assert(tasks@ =~= mj.progress->tasks.drop_first());
            }
        } else if t.compare < t.high {
            let pivot = data[t.high];
            if data[t.compare] <= pivot {
                swap_in(data, t.scan, t.compare);
                tasks[0] = Task {
                    low: t.low,
                    high: t.high,
                    scan: t.scan + 1,
                    compare: t.compare + 1,
                };
            } else {
                tasks[0] = Task { low: t.low, high: t.high, scan: t.scan, compare: t.compare + 1 };
            }
        } else {
            swap_in(data, t.scan, t.high);
            tasks.remove(0);
            let ghost rest = mj.progress->tasks.drop_first();
            proof {
                assert(tasks@ =~= rest);
            }
            if t.scan > t.low {
                tasks.insert(0, Task { low: t.low, high: t.scan - 1, scan: t.low, compare: t.low });
                proof {
                    assert(tasks@ =~= seq![
                        Task {
                            low: t.low,
                            high: (t.scan - 1) as usize,
                            scan: t.low,
                            compare: t.low,
                        },
                    ] + rest);
                }
            }
            if t.scan < t.high {
                tasks.push(
                    Task { low: t.scan + 1, high: t.high, scan: t.scan + 1, compare: t.scan + 1 },
                );
            }
        }
        j += 1;
        proof {
            assert(m0.advance(j as nat) == mj.step());
        }
    }
    tasks.len() == 0
}

} // verus!
