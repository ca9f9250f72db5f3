use vstd::prelude::*;
use vstd::relations::{sorted_by, total_ordering};
use crate::feedback::{feedback_schedule, fb_runnable, fb_result, fb_final};
use crate::util::{count_false, lemma_count_false_update, lemma_count_false_exists, lemma_count_false_all, all_false};

verus! {

/// A process for scheduling purposes.
#[derive(Clone, Copy, Debug)]
pub struct Process {
    pub id: usize,
    pub arrival_time: u64,
    pub burst_time: u64,
    pub priority: u32,
}

/// Result of scheduling a set of processes. Averages and throughput are
/// ratios of the totals below: for example the average waiting time is the sum of
/// the waiting times over the number of processes, and the throughput is the
/// number of processes over `total_time`.
#[derive(Clone, Debug)]
pub struct ScheduleResult {
    pub order: Vec<usize>,
    pub turnaround_times: Vec<(usize, u64)>,
    pub waiting_times: Vec<(usize, u64)>,
    pub response_times: Vec<(usize, u64)>,
    /// The time at which the last process completes (0 when there are none).
    pub total_time: u64,
}

/// Orders process indices by arrival time, then by id, then by position.
pub open spec fn arrival_le(procs: Seq<Process>) -> spec_fn(usize, usize) -> bool {
    |i: usize, j: usize|
        {
            let (a, b) = (procs[i as int], procs[j as int]);
            a.arrival_time < b.arrival_time || (a.arrival_time == b.arrival_time && (a.id < b.id || (
            a.id == b.id && i <= j)))
        }
}

/// The indices `0..n`.
pub open spec fn index_seq(n: nat) -> Seq<usize> {
    Seq::new(n, |i: int| i as usize)
}

/// Process indices in order of arrival (ties broken by id, then by position):
/// the order of a stable sort by `(arrival_time, id)`.
pub open spec fn arrival_order(procs: Seq<Process>) -> Seq<usize> {
    index_seq(procs.len()).sort_by(arrival_le(procs))
}

pub proof fn lemma_arrival_le_total(procs: Seq<Process>)
    ensures
        total_ordering(arrival_le(procs)),
{
}

/// The arrival order is a permutation of the process indices.
pub proof fn lemma_arrival_order_perm(procs: Seq<Process>)
    requires
        procs.len() <= usize::MAX,
    ensures
        arrival_order(procs).len() == procs.len(),
        forall|k: int| 0 <= k < procs.len() ==> #[trigger] arrival_order(procs)[k] < procs.len(),
        forall|k1: int, k2: int|
            0 <= k1 < procs.len() && 0 <= k2 < procs.len() && k1 != k2 ==> #[trigger] arrival_order(procs)[k1]
                != #[trigger] arrival_order(procs)[k2],
        forall|i: int| 0 <= i < procs.len() ==> #[trigger] ranked(arrival_order(procs), i),
{
    broadcast use vstd::seq_lib::group_to_multiset_ensures;
    let n = procs.len();
    let idx = index_seq(n);
    let rank = arrival_order(procs);
    lemma_arrival_le_total(procs);
    idx.lemma_sort_by_ensures(arrival_le(procs));
    assert forall|a: int, b: int| 0 <= a < idx.len() && 0 <= b < idx.len() && a != b implies idx[a] != idx[b] by {
        assert(idx[a] == a && idx[b] == b);
    }
    assert(idx.no_duplicates());
    idx.lemma_multiset_has_no_duplicates();
    assert(rank.len() == rank.to_multiset().len());
    assert(idx.len() == idx.to_multiset().len());
    rank.lemma_multiset_has_no_duplicates_conv();
    assert forall|k: int| 0 <= k < n implies #[trigger] rank[k] < n by {
        assert(rank.contains(rank[k]));
        assert(idx.to_multiset().count(rank[k]) > 0);
        assert(idx.contains(rank[k]));
    }
    assert forall|i: int| 0 <= i < n implies #[trigger] ranked(rank, i) by {
        assert(idx[i] == i);
        assert(idx.contains(i as usize));
        assert(rank.to_multiset().count(i as usize) > 0);
        assert(rank.contains(i as usize));
        let k = choose|k: int| 0 <= k < rank.len() && rank[k] == i as usize;
        assert(rank[k] == i);
    }
}

/// `i` occurs in `rank`.
pub open spec fn ranked(rank: Seq<usize>, i: int) -> bool {
    exists|k: int| 0 <= k < rank.len() && rank[k] == i
}

fn arrival_lt_eq(procs: &[Process], i: usize, j: usize) -> (r: bool)
    requires
        i < procs.len(),
        j < procs.len(),
    ensures
        r == (arrival_le(procs@))(i, j),
{
    let a = procs[i];
    let b = procs[j];
    a.arrival_time < b.arrival_time || (a.arrival_time == b.arrival_time && (a.id < b.id || (a.id
        == b.id && i <= j)))
}

/// Process indices sorted by `(arrival_time, id)`, stably.
pub(crate) fn sort_by_arrival(procs: &[Process]) -> (r: Vec<usize>)
    ensures
        r@ == arrival_order(procs@),
        r@.len() == procs@.len(),
        forall|k: int| 0 <= k < r@.len() ==> r@[k] < procs@.len(),
{
    let n = procs.len();
    let ghost idx = index_seq(n as nat);
    let ghost le = arrival_le(procs@);
    let mut res: Vec<usize> = Vec::new();
    let mut i: usize = 0;
    assert(res@ =~= idx.subrange(0, 0));
    while i < n
        invariant
            n == procs.len(),
            idx == index_seq(n as nat),
            le == arrival_le(procs@),
            i <= n,
            sorted_by(res@, le),
            res@.to_multiset() == idx.subrange(0, i as int).to_multiset(),
            forall|k: int| 0 <= k < res@.len() ==> res@[k] < i,
        decreases n - i,
    {
        let mut pos: usize = 0;
        while pos < res.len() && arrival_lt_eq(procs, res[pos], i)
            invariant
                pos <= res.len(),
                n == procs.len(),
                i < n,
                le == arrival_le(procs@),
                forall|k: int| 0 <= k < res@.len() ==> res@[k] < i,
                forall|k: int| 0 <= k < pos ==> le(res@[k], i),
            decreases res.len() - pos,
        {
            pos = pos + 1;
        }
        let ghost old_res = res@;
        res.insert(pos, i);
        proof {
            lemma_arrival_le_total(procs@);
            broadcast use vstd::seq_lib::group_to_multiset_ensures;
            broadcast use vstd::multiset::group_multiset_axioms;
            assert(res@ =~= old_res.insert(pos as int, i));
            assert(res@.remove(pos as int) =~= old_res);
            assert(res@.to_multiset().count(i) > 0) by {
                assert(res@[pos as int] == i);
                assert(res@.contains(i));
            }
            assert(res@.to_multiset() =~= old_res.to_multiset().insert(i));
            assert(idx.subrange(0, i + 1) =~= idx.subrange(0, i as int).push(i));
            if pos < old_res.len() {
                assert(!le(old_res[pos as int], i));
                assert(le(i, old_res[pos as int]));
            }
            assert forall|a: int, b: int| 0 <= a < b < res@.len() implies #[trigger] le(
                res@[a],
                res@[b],
            ) by {
                if b < pos {
                    assert(res@[a] == old_res[a] && res@[b] == old_res[b]);
                } else if b == pos {
                    assert(res@[a] == old_res[a]);
                } else if a == pos {
                    assert(res@[b] == old_res[b - 1]);
                    if b - 1 > pos {
                        assert(le(old_res[pos as int], old_res[b - 1]));
                    }
                } else if a < pos {
                    assert(res@[a] == old_res[a] && res@[b] == old_res[b - 1]);
                } else {
                    assert(res@[a] == old_res[a - 1] && res@[b] == old_res[b - 1]);
                }
            }
        }
        i = i + 1;
    }
    proof {
        assert(idx.subrange(0, n as int) =~= idx);
        lemma_arrival_le_total(procs@);
        idx.lemma_sort_by_ensures(le);
        vstd::seq_lib::lemma_sorted_unique(res@, idx.sort_by(le), le);
        broadcast use vstd::seq_lib::group_to_multiset_ensures;
        assert(res@.len() == res@.to_multiset().len());
        assert(idx.len() == idx.to_multiset().len());
    }
    res
}

/// The later of two instants.
pub open spec fn later(a: int, b: int) -> int {
    if a >= b {
        a
    } else {
        b
    }
}

/// FCFS clock: the time at which the first `k` processes of `rank` have finished,
/// each starting at the later of its arrival and the previous completion.
pub open spec fn fcfs_clock(procs: Seq<Process>, rank: Seq<usize>, k: nat) -> int
    decreases k,
{
    if k == 0 {
        0
    } else {
        let p = procs[rank[k - 1] as int];
        later(fcfs_clock(procs, rank, (k - 1) as nat), p.arrival_time as int) + p.burst_time
    }
}

/// FCFS start time of the `k`-th process of `rank`.
pub open spec fn fcfs_start(procs: Seq<Process>, rank: Seq<usize>, k: nat) -> int {
    later(fcfs_clock(procs, rank, k), procs[rank[k as int] as int].arrival_time as int)
}

pub proof fn lemma_fcfs_clock_monotone(procs: Seq<Process>, rank: Seq<usize>, k: nat, m: nat)
    requires
        k <= m,
    ensures
        fcfs_clock(procs, rank, k) <= fcfs_clock(procs, rank, m),
    decreases m,
{
    if k < m {
        lemma_fcfs_clock_monotone(procs, rank, k, (m - 1) as nat);
    }
}

/// FCFS (First-Come, First-Served) scheduler: processes run to completion in order
/// of arrival (ties by id, then by position).
pub fn fcfs(processes: &[Process]) -> (r: ScheduleResult)
    requires
        fcfs_clock(processes@, arrival_order(processes@), processes@.len()) <= u64::MAX,
    ensures
        ({
            let procs = processes@;
            let rank = arrival_order(procs);
            let n = procs.len();
            &&& r.order@.len() == n
            &&& r.turnaround_times@.len() == n
            &&& r.waiting_times@.len() == n
            &&& r.response_times@.len() == n
            &&& forall|k: int|
                0 <= k < n ==> {
                    let p = #[trigger] procs[rank[k] as int];
                    &&& r.order@[k] == p.id
                    &&& r.turnaround_times@[k] == (p.id, (fcfs_clock(procs, rank, (k + 1) as nat)
                        - p.arrival_time) as u64)
                    &&& r.waiting_times@[k] == (p.id, (fcfs_start(procs, rank, k as nat)
                        - p.arrival_time) as u64)
                    &&& r.response_times@[k] == r.waiting_times@[k]
                }
            &&& r.total_time == fcfs_clock(procs, rank, n)
        }),
{
    let rank = sort_by_arrival(processes);
    let ghost procs = processes@;
    let n = processes.len();
    let mut order: Vec<usize> = Vec::new();
    let mut turnaround_times: Vec<(usize, u64)> = Vec::new();
    let mut waiting_times: Vec<(usize, u64)> = Vec::new();
    let mut response_times: Vec<(usize, u64)> = Vec::new();
    let mut current_time: u64 = 0;
    let mut k: usize = 0;
    while k < n
        invariant
            n == procs.len(),
            procs == processes@,
            rank@ == arrival_order(procs),
            rank@.len() == n,
            forall|j: int| 0 <= j < n ==> rank@[j] < n,
            fcfs_clock(procs, rank@, n as nat) <= u64::MAX,
            k <= n,
            current_time == fcfs_clock(procs, rank@, k as nat),
            order@.len() == k,
            turnaround_times@.len() == k,
            waiting_times@.len() == k,
            response_times@.len() == k,
            forall|j: int|
                0 <= j < k ==> {
                    let p = #[trigger] procs[rank@[j] as int];
                    &&& order@[j] == p.id
                    &&& turnaround_times@[j] == (p.id, (fcfs_clock(procs, rank@, (j + 1) as nat)
                        - p.arrival_time) as u64)
                    &&& waiting_times@[j] == (p.id, (fcfs_start(procs, rank@, j as nat)
                        - p.arrival_time) as u64)
                    &&& response_times@[j] == waiting_times@[j]
                },
        decreases n - k,
    {
        let p = processes[rank[k]];
        proof {
            lemma_fcfs_clock_monotone(procs, rank@, (k + 1) as nat, n as nat);
        }
        let start = if current_time >= p.arrival_time { current_time } else { p.arrival_time };
        let end = start + p.burst_time;
        let turnaround = end - p.arrival_time;
        let waiting = start - p.arrival_time;
        let response = start - p.arrival_time;
        order.push(p.id);
        turnaround_times.push((p.id, turnaround));
        waiting_times.push((p.id, waiting));
        response_times.push((p.id, response));
        current_time = end;
        k = k + 1;
    }
    ScheduleResult {
        order,
        turnaround_times,
        waiting_times,
        response_times,
        total_time: current_time,
    }
}

/// The selection key of the non-preemptive schedulers: the priority number when
/// `by_priority`, else the burst time. Lower keys run first.
pub open spec fn np_key(p: Process, by_priority: bool) -> int {
    if by_priority {
        p.priority as int
    } else {
        p.burst_time as int
    }
}

/// Keys must stay below this bound to be selectable at all.
pub open spec fn np_bound(by_priority: bool) -> int {
    if by_priority {
        u32::MAX as int
    } else {
        u64::MAX as int
    }
}

pub open spec fn pending(procs: Seq<Process>, done: Seq<bool>, i: int) -> bool {
    0 <= i < procs.len() && !done[i]
}

pub open spec fn ready(procs: Seq<Process>, done: Seq<bool>, t: int, i: int) -> bool {
    pending(procs, done, i) && procs[i].arrival_time <= t
}

/// `i` is the process picked at time `t`: the first ready process with the
/// smallest key, provided that key is below the bound.
pub open spec fn is_np_pick(
    procs: Seq<Process>,
    by_priority: bool,
    done: Seq<bool>,
    t: int,
    i: int,
) -> bool {
    &&& ready(procs, done, t, i)
    &&& np_key(procs[i], by_priority) < np_bound(by_priority)
    &&& forall|j: int| #[trigger]
        ready(procs, done, t, j) ==> np_key(procs[i], by_priority) <= np_key(procs[j], by_priority)
    &&& forall|j: int|
        0 <= j < i && #[trigger] ready(procs, done, t, j) ==> np_key(procs[j], by_priority) > np_key(
            procs[i],
            by_priority,
        )
}

pub open spec fn is_earliest_pending(procs: Seq<Process>, done: Seq<bool>, a: int) -> bool {
    &&& exists|i: int| #[trigger] pending(procs, done, i) && procs[i].arrival_time == a
    &&& forall|j: int| #[trigger] pending(procs, done, j) ==> procs[j].arrival_time >= a
}

/// The time at which the next non-preemptive decision is taken: now if some
/// pending process has arrived, else the earliest pending arrival.
pub open spec fn np_clock(procs: Seq<Process>, done: Seq<bool>, t: int) -> int {
    if exists|i: int| #[trigger] ready(procs, done, t, i) {
        t
    } else {
        choose|a: int| is_earliest_pending(procs, done, a)
    }
}

/// The non-preemptive schedule from a state: `(index, start, end)` of each
/// process in the order in which they run; `left` is the number still pending.
pub open spec fn np_schedule(
    procs: Seq<Process>,
    by_priority: bool,
    done: Seq<bool>,
    t: int,
    left: nat,
) -> Seq<(int, int, int)>
    decreases left,
{
    if left == 0 {
        Seq::empty()
    } else {
        let start = np_clock(procs, done, t);
        let i = choose|i: int| is_np_pick(procs, by_priority, done, start, i);
        let end = start + procs[i].burst_time;
        seq![(i, start, end)] + np_schedule(procs, by_priority, done.update(i, true), end, (left - 1) as nat)
    }
}

/// The full non-preemptive schedule of `procs`.
pub open spec fn np_full(procs: Seq<Process>, by_priority: bool) -> Seq<(int, int, int)> {
    np_schedule(procs, by_priority, Seq::new(procs.len(), |i: int| false), 0, procs.len())
}

/// The time at which the non-preemptive schedule ends.
pub open spec fn np_finish(procs: Seq<Process>, by_priority: bool) -> int {
    if procs.len() == 0 {
        0
    } else {
        np_full(procs, by_priority).last().2
    }
}

/// Every key is selectable.
pub open spec fn np_keys_ok(procs: Seq<Process>, by_priority: bool) -> bool {
    forall|i: int| 0 <= i < procs.len() ==> np_key(#[trigger] procs[i], by_priority) < np_bound(by_priority)
}

pub(crate) proof fn lemma_np_pick_unique(procs: Seq<Process>, bp: bool, done: Seq<bool>, t: int, i: int)
    requires
        is_np_pick(procs, bp, done, t, i),
    ensures
        (choose|k: int| is_np_pick(procs, bp, done, t, k)) == i,
{
    let k = choose|k: int| is_np_pick(procs, bp, done, t, k);
    assert(is_np_pick(procs, bp, done, t, k));
    if k < i {
        assert(ready(procs, done, t, k));
    } else if k > i {
        assert(ready(procs, done, t, i));
    }
}

pub(crate) proof fn lemma_earliest_unique(procs: Seq<Process>, done: Seq<bool>, a: int)
    requires
        is_earliest_pending(procs, done, a),
    ensures
        (choose|b: int| is_earliest_pending(procs, done, b)) == a,
{
    let b = choose|b: int| is_earliest_pending(procs, done, b);
    assert(is_earliest_pending(procs, done, b));
    let i = choose|i: int| #[trigger] pending(procs, done, i) && procs[i].arrival_time == a;
    let j = choose|j: int| #[trigger] pending(procs, done, j) && procs[j].arrival_time == b;
}

/// The first ready process with the smallest key below the bound, if any.
fn find_pick(processes: &[Process], done: &Vec<bool>, t: u64, by_priority: bool) -> (r: Option<usize>)
    requires
        done@.len() == processes@.len(),
    ensures
        r matches Some(i) ==> is_np_pick(processes@, by_priority, done@, t as int, i as int),
        r is None ==> forall|j: int| #[trigger] ready(processes@, done@, t as int, j) ==> np_key(
            processes@[j],
            by_priority,
        ) >= np_bound(by_priority),
{
    let mut best: Option<usize> = None;
    let mut best_key: u64 = if by_priority { u32::MAX as u64 } else { u64::MAX };
    let mut k: usize = 0;
    while k < processes.len()
        invariant
            k <= processes.len(),
            done@.len() == processes@.len(),
            best_key <= np_bound(by_priority),
            best matches Some(i) ==> i < k && ready(processes@, done@, t as int, i as int) && best_key
                == np_key(processes@[i as int], by_priority),
            best is None ==> best_key == np_bound(by_priority),
            best is Some ==> best_key < np_bound(by_priority),
            forall|j: int|
                0 <= j < k && #[trigger] ready(processes@, done@, t as int, j) ==> best_key <= np_key(
                    processes@[j],
                    by_priority,
                ),
            best matches Some(i) ==> forall|j: int|
                0 <= j < i && #[trigger] ready(processes@, done@, t as int, j) ==> np_key(
                    processes@[j],
                    by_priority,
                ) > best_key,
        decreases processes.len() - k,
    {
        let p = processes[k];
        let key: u64 = if by_priority { p.priority as u64 } else { p.burst_time };
        if !done[k] && p.arrival_time <= t && key < best_key {
            best_key = key;
            best = Some(k);
        }
        k = k + 1;
    }
    best
}

/// The earliest arrival among pending processes.
fn earliest_pending(processes: &[Process], done: &Vec<bool>) -> (a: u64)
    requires
        done@.len() == processes@.len(),
        exists|i: int| #[trigger] pending(processes@, done@, i),
    ensures
        is_earliest_pending(processes@, done@, a as int),
{
    let mut found = false;
    let mut best: u64 = 0;
    let mut k: usize = 0;
    while k < processes.len()
        invariant
            k <= processes.len(),
            done@.len() == processes@.len(),
            found ==> exists|i: int| 0 <= i < k && #[trigger] pending(processes@, done@, i) && processes@[i].arrival_time == best,
            found ==> forall|j: int| 0 <= j < k && #[trigger] pending(processes@, done@, j) ==> processes@[j].arrival_time >= best,
            !found ==> forall|j: int| 0 <= j < k ==> !#[trigger] pending(processes@, done@, j),
        decreases processes.len() - k,
    {
        if !done[k] && (!found || processes[k].arrival_time < best) {
            best = processes[k].arrival_time;
            found = true;
            assert(pending(processes@, done@, k as int));
        }
        k = k + 1;
    }
    best
}

pub(crate) proof fn lemma_np_schedule_monotone(procs: Seq<Process>, bp: bool, done: Seq<bool>, t: int, left: nat)
    requires
        np_keys_ok(procs, bp),
        done.len() == procs.len(),
        count_false(done) == left,
    ensures
        forall|k: int| 0 <= k < np_schedule(procs, bp, done, t, left).len() ==> {
            let s = #[trigger] np_schedule(procs, bp, done, t, left)[k];
            &&& t <= s.1 <= s.2
            &&& s.2 == s.1 + procs[s.0].burst_time
            &&& 0 <= s.0 < procs.len()
            &&& procs[s.0].arrival_time <= s.1
        },
        forall|k: int, m: int| 0 <= k <= m < np_schedule(procs, bp, done, t, left).len() ==>
            #[trigger] np_schedule(procs, bp, done, t, left)[k].2 <= #[trigger] np_schedule(procs, bp, done, t, left)[m].2,
        np_schedule(procs, bp, done, t, left).len() == left,
    decreases left,
{
    if left > 0 {
        let start = np_clock(procs, done, t);
        lemma_count_false_exists(done);
        let i0 = choose|i: int| 0 <= i < done.len() && !done[i];
        assert(pending(procs, done, i0));
        lemma_np_clock(procs, done, t);
        let i = pick_exists(procs, bp, done, start);
        lemma_np_pick_unique(procs, bp, done, start, i);
        let end = start + procs[i].burst_time;
        lemma_count_false_update(done, i);
        lemma_np_schedule_monotone(procs, bp, done.update(i, true), end, (left - 1) as nat);
        let rest = np_schedule(procs, bp, done.update(i, true), end, (left - 1) as nat);
        let full = np_schedule(procs, bp, done, t, left);
        assert(full =~= seq![(i, start, end)] + rest);
        assert forall|k: int, m: int| 0 <= k <= m < full.len() implies #[trigger] full[k].2 <= #[trigger] full[m].2 by {
            if k > 0 {
                assert(full[k] == rest[k - 1] && full[m] == rest[m - 1]);
            } else if m > 0 {
                assert(full[m] == rest[m - 1]);
            }
        }
        assert forall|k: int| 0 <= k < full.len() implies {
            let s = #[trigger] full[k];
            &&& t <= s.1 <= s.2
            &&& s.2 == s.1 + procs[s.0].burst_time
            &&& 0 <= s.0 < procs.len()
            &&& procs[s.0].arrival_time <= s.1
        } by {
            if k > 0 {
                assert(full[k] == rest[k - 1]);
            }
        }
    }
}

pub(crate) proof fn lemma_np_clock(procs: Seq<Process>, done: Seq<bool>, t: int)
    requires
        done.len() == procs.len(),
        exists|i: int| #[trigger] pending(procs, done, i),
    ensures
        np_clock(procs, done, t) >= t,
        exists|j: int| #[trigger] ready(procs, done, np_clock(procs, done, t), j),
{
    if exists|i: int| #[trigger] ready(procs, done, t, i) {
    } else {
        let (a, ia) = choose_earliest(procs, done);
        lemma_earliest_unique(procs, done, a);
        assert(ready(procs, done, a, ia));
        assert(!ready(procs, done, t, ia));
    }
}

/// Picks the next process: `(index, start time)`.
fn select(processes: &[Process], done: &Vec<bool>, t: u64, by_priority: bool) -> (r: (usize, u64))
    requires
        done@.len() == processes@.len(),
        np_keys_ok(processes@, by_priority),
        exists|i: int| #[trigger] pending(processes@, done@, i),
    ensures
        r.1 == np_clock(processes@, done@, t as int),
        is_np_pick(processes@, by_priority, done@, r.1 as int, r.0 as int),
{
    let ghost procs = processes@;
    let first = find_pick(processes, done, t, by_priority);
    match first {
        Some(i) => {
            assert(ready(procs, done@, t as int, i as int));
            (i, t)
        },
        None => {
            assert forall|j: int| !#[trigger] ready(procs, done@, t as int, j) by {
                if ready(procs, done@, t as int, j) {
                    assert(np_key(procs[j], by_priority) < np_bound(by_priority));
                }
            }
            let e = earliest_pending(processes, done);
            proof {
                lemma_earliest_unique(procs, done@, e as int);
            }
            let again = find_pick(processes, done, e, by_priority);
            match again {
                Some(i) => (i, e),
                None => {
                    proof {
                        let ia = choose|ia: int| #[trigger] pending(procs, done@, ia) && procs[ia].arrival_time == e;
                        assert(ready(procs, done@, e as int, ia));
                        assert(np_key(procs[ia], by_priority) < np_bound(by_priority));
                    }
                    (0, e)
                },
            }
        },
    }
}

/// Some pending process exists: the earliest one.
pub(crate) proof fn choose_earliest(procs: Seq<Process>, done: Seq<bool>) -> (r: (int, int))
    requires
        done.len() == procs.len(),
        exists|i: int| #[trigger] pending(procs, done, i),
    ensures
        is_earliest_pending(procs, done, r.0),
        pending(procs, done, r.1),
        procs[r.1].arrival_time == r.0,
    decreases procs.len(),
{
    let i0 = choose|i: int| #[trigger] pending(procs, done, i);
    let ghost p = procs.drop_last();
    let ghost d = done.drop_last();
    let l = procs.len() - 1;
    if exists|i: int| #[trigger] pending(p, d, i) {
        let (a, ia) = choose_earliest(p, d);
        assert(forall|j: int| 0 <= j < l ==> pending(procs, done, j) == pending(p, d, j) && procs[j] == p[j]);
        if pending(procs, done, l) && procs[l].arrival_time < a {
            (procs[l].arrival_time as int, l)
        } else {
            assert(pending(procs, done, ia));
            (a, ia)
        }
    } else {
        assert(forall|j: int| 0 <= j < l ==> pending(procs, done, j) == pending(p, d, j));
        assert(i0 == l);
        (procs[l].arrival_time as int, l)
    }
}

/// A pick exists whenever some pending process has arrived.
pub(crate) proof fn pick_exists(procs: Seq<Process>, bp: bool, done: Seq<bool>, t: int) -> (i: int)
    requires
        done.len() == procs.len(),
        np_keys_ok(procs, bp),
        exists|j: int| #[trigger] ready(procs, done, t, j),
    ensures
        is_np_pick(procs, bp, done, t, i),
    decreases procs.len(),
{
    let p = procs.drop_last();
    let d = done.drop_last();
    let l = procs.len() - 1;
    assert(forall|j: int| 0 <= j < l ==> ready(procs, done, t, j) == ready(p, d, t, j) && procs[j] == p[j]);
    assert(np_keys_ok(p, bp)) by {
        assert forall|j: int| 0 <= j < p.len() implies np_key(#[trigger] p[j], bp) < np_bound(bp) by {
            assert(p[j] == procs[j]);
        }
    }
    if exists|j: int| #[trigger] ready(p, d, t, j) {
        let k = pick_exists(p, bp, d, t);
        if ready(procs, done, t, l) && np_key(procs[l], bp) < np_key(procs[k], bp) {
            l
        } else {
            k
        }
    } else {
        let j = choose|j: int| #[trigger] ready(procs, done, t, j);
        assert(j == l);
        l
    }
}

/// The non-preemptive scheduler shared by SJF and priority scheduling.
fn nonpreemptive(processes: &[Process], by_priority: bool) -> (r: ScheduleResult)
    requires
        np_keys_ok(processes@, by_priority),
        np_finish(processes@, by_priority) <= u64::MAX,
    ensures
        np_result(processes@, np_full(processes@, by_priority), np_finish(processes@, by_priority), r),
{
    let n = processes.len();
    let ghost procs = processes@;
    let ghost full = np_full(procs, by_priority);
    let mut done = all_false(n);
    let mut order: Vec<usize> = Vec::new();
    let mut turnaround_times: Vec<(usize, u64)> = Vec::new();
    let mut waiting_times: Vec<(usize, u64)> = Vec::new();
    let mut response_times: Vec<(usize, u64)> = Vec::new();
    let mut current_time: u64 = 0;
    let mut completed: usize = 0;
    proof {
        lemma_count_false_all(n as nat);
        lemma_np_schedule_monotone(procs, by_priority, done@, 0, n as nat);
        assert(full =~= full.take(0) + np_schedule(procs, by_priority, done@, 0, n as nat));
    }
    while completed < n
        invariant
            n == procs.len(),
            procs == processes@,
            np_keys_ok(procs, by_priority),
            full == np_full(procs, by_priority),
            full.len() == n,
            np_finish(procs, by_priority) <= u64::MAX,
            forall|k: int, m: int| 0 <= k <= m < full.len() ==> #[trigger] full[k].2 <= #[trigger] full[m].2,
            completed <= n,
            done@.len() == n,
            count_false(done@) == n - completed,
            full == full.take(completed as int) + np_schedule(procs, by_priority, done@, current_time as int, (n - completed) as nat),
            completed > 0 ==> current_time == full[completed - 1].2,
            completed == 0 ==> current_time == 0,
            np_partial(procs, full, completed as int, order@, turnaround_times@, waiting_times@, response_times@),
        decreases n - completed,
    {
        let ghost rest = np_schedule(procs, by_priority, done@, current_time as int, (n - completed) as nat);
        proof {
            lemma_np_schedule_monotone(procs, by_priority, done@, current_time as int, (n - completed) as nat);
            lemma_count_false_exists(done@);
            let i0 = choose|i: int| 0 <= i < done@.len() && !done@[i];
            assert(pending(procs, done@, i0));
            assert(rest[0] == full[completed as int]);
        }
        let (idx, start) = select(processes, &done, current_time, by_priority);
        proof {
            lemma_np_pick_unique(procs, by_priority, done@, start as int, idx as int);
            assert(rest[0] == (idx as int, start as int, start + procs[idx as int].burst_time));
            assert(full[completed as int] == rest[0]);
            assert(full[completed as int].2 <= full[n - 1].2);
        }
        let p = processes[idx];
        let end = start + p.burst_time;
        order.push(p.id);
        turnaround_times.push((p.id, end - p.arrival_time));
        waiting_times.push((p.id, start - p.arrival_time));
        response_times.push((p.id, start - p.arrival_time));
        proof {
            lemma_count_false_update(done@, idx as int);
            assert(rest =~= seq![rest[0]] + np_schedule(procs, by_priority, done@.update(idx as int, true), end as int, (n - completed - 1) as nat));
            assert(full.take(completed + 1) =~= full.take(completed as int).push(rest[0]));
        }
        done.set(idx, true);
        current_time = end;
        completed = completed + 1;
        proof {
            assert(full =~= full.take(completed as int) + np_schedule(procs, by_priority, done@, current_time as int, (n - completed) as nat));
        }
    }
    proof {
        assert(full.take(n as int) =~= full);
    }
    ScheduleResult {
        order,
        turnaround_times,
        waiting_times,
        response_times,
        total_time: current_time,
    }
}

/// The first `k` slots of `sched` are reported by the result vectors.
pub open spec fn np_partial(
    procs: Seq<Process>,
    sched: Seq<(int, int, int)>,
    k: int,
    order: Seq<usize>,
    turnaround: Seq<(usize, u64)>,
    waiting: Seq<(usize, u64)>,
    response: Seq<(usize, u64)>,
) -> bool {
    &&& order.len() == k
    &&& turnaround.len() == k
    &&& waiting.len() == k
    &&& response.len() == k
    &&& forall|j: int|
        0 <= j < k ==> {
            let s = #[trigger] sched[j];
            let p = procs[s.0];
            &&& order[j] == p.id
            &&& turnaround[j] == (p.id, (s.2 - p.arrival_time) as u64)
            &&& waiting[j] == (p.id, (s.1 - p.arrival_time) as u64)
            &&& response[j] == waiting[j]
        }
}

/// `r` reports the schedule `sched`, which ends at `finish`.
pub open spec fn np_result(
    procs: Seq<Process>,
    sched: Seq<(int, int, int)>,
    finish: int,
    r: ScheduleResult,
) -> bool {
    &&& np_partial(procs, sched, procs.len() as int, r.order@, r.turnaround_times@, r.waiting_times@, r.response_times@)
    &&& r.total_time == finish
}

/// Round Robin scheduler: the ready queue is served first come, first served; each
/// process runs for at most `quantum` and, if unfinished, rejoins the back of the queue
/// after the processes that arrived meanwhile. This is the feedback scheduler with a
/// single queue whose quantum is `quantum`.
pub fn round_robin(processes: &[Process], quantum: u64) -> (r: ScheduleResult)
    requires
        fb_runnable(processes@, 1, seq![quantum]),
    ensures
        fb_result(processes@, fb_final(processes@, 1, seq![quantum]), r),
{
    let quanta: Vec<u64> = vec![quantum];
    proof {
        assert(quanta@ =~= seq![quantum]);
    }
    feedback_schedule(processes, 1, quanta.as_slice())
}

/// Multi-Level Feedback Queue (MLFQ) scheduler: new arrivals enter queue 0; the head
/// of the highest non-empty queue runs for at most that queue's quantum (queues past
/// the end of `quantums` use its last entry) and, if unfinished, moves one queue down
/// (staying in the last queue).
pub fn mlfq(processes: &[Process], num_queues: usize, quantums: &[u64]) -> (r: ScheduleResult)
    requires
        fb_runnable(processes@, num_queues as int, quantums@),
    ensures
        fb_result(processes@, fb_final(processes@, num_queues as int, quantums@), r),
{
    feedback_schedule(processes, num_queues, quantums)
}

/// SJF (Shortest Job First) non-preemptive scheduler: whenever the CPU is free,
/// the arrived process with the shortest burst runs to completion (the first such
/// in `processes` on ties); when none has arrived, the clock jumps to the next arrival.
pub fn sjf(processes: &[Process]) -> (r: ScheduleResult)
    requires
        np_keys_ok(processes@, false),
        np_finish(processes@, false) <= u64::MAX,
    ensures
        np_result(processes@, np_full(processes@, false), np_finish(processes@, false), r),
{
    nonpreemptive(processes, false)
}

/// Priority scheduler (non-preemptive). Lower number = higher priority: whenever the
/// CPU is free, the arrived process with the lowest priority number runs to completion
/// (the first such in `processes` on ties).
pub fn priority_schedule(processes: &[Process]) -> (r: ScheduleResult)
    requires
        np_keys_ok(processes@, true),
        np_finish(processes@, true) <= u64::MAX,
    ensures
        np_result(processes@, np_full(processes@, true), np_finish(processes@, true), r),
{
    nonpreemptive(processes, true)
}

} // verus!
