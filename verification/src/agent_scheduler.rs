use vstd::prelude::*;
pub use crate::dependencies::schedule_with_dependencies;
use crate::scheduling::{
    Process, fcfs, sjf, round_robin, priority_schedule, arrival_order, later,
    lemma_arrival_order_perm, ranked, fcfs_clock, fcfs_start, np_full, np_finish, np_keys_ok, np_schedule, np_clock, pending, ready, lemma_np_schedule_monotone, pick_exists, lemma_np_pick_unique,
};
use crate::feedback::{fb_final, fb_runnable, FbState, ids_of, fb_start, fb_fuel, lemma_run_inv};
use crate::feedback_laws::{lemma_fb_runnable, max_arrival, total_burst, positive_quanta, lemma_init_good};
use crate::util::{sum, lemma_sum_update, count_false, lemma_count_false_update, lemma_count_false_exists};

verus! {

/// An agent task for scheduling.
#[derive(Clone, Debug)]
pub struct AgentTask {
    pub id: String,
    pub priority: u32,
    pub estimated_duration_ms: u64,
    pub dependencies: Vec<String>,
    /// Milliseconds from the epoch.
    pub deadline: Option<u64>,
}

/// Result of agent scheduling.
#[derive(Clone, Debug)]
pub struct AgentScheduleResult {
    pub task_order: Vec<String>,
    pub total_time_ms: u64,
    pub estimated_completion: Vec<(String, u64)>,
    pub algorithm_used: String,
}

/// The tasks as processes: task `i` is process `i`, arriving at 0, with the task's
/// duration as burst and its priority.
pub open spec fn agent_procs(tasks: Seq<AgentTask>) -> Seq<Process> {
    Seq::new(
        tasks.len(),
        |i: int| Process { id: i as usize, arrival_time: 0, burst_time: tasks[i].estimated_duration_ms, priority: tasks[i].priority },
    )
}

/// Every process arrives at time 0.
pub open spec fn all_at_zero(procs: Seq<Process>) -> bool {
    forall|i: int| 0 <= i < procs.len() ==> #[trigger] procs[i].arrival_time == 0
}

pub(crate) proof fn lemma_sum_zeros(n: nat)
    ensures
        sum(Seq::new(n, |i: int| 0int)) == 0,
    decreases n,
{
    if n > 0 {
        assert(Seq::new(n, |i: int| 0int).drop_last() =~= Seq::new((n - 1) as nat, |i: int| 0int));
        lemma_sum_zeros((n - 1) as nat);
    }
}

/// The first `k` entries of `rank` hold `i`.
spec fn picked(rank: Seq<usize>, k: int, i: int) -> bool {
    exists|j: int| 0 <= j < k && rank[j] == i
}

/// Total burst of the processes among the first `k` entries of `rank`.
spec fn picked_burst(procs: Seq<Process>, rank: Seq<usize>, k: int) -> int {
    sum(Seq::new(procs.len(), |i: int| if picked(rank, k, i) { procs[i].burst_time as int } else { 0 }))
}

proof fn lemma_fcfs_zero(procs: Seq<Process>, k: nat)
    requires
        procs.len() <= usize::MAX,
        all_at_zero(procs),
        k <= procs.len(),
    ensures
        fcfs_clock(procs, arrival_order(procs), k) == picked_burst(procs, arrival_order(procs), k as int),
        fcfs_clock(procs, arrival_order(procs), k) >= 0,
    decreases k,
{
    let rank = arrival_order(procs);
    let n = procs.len();
    lemma_arrival_order_perm(procs);
    if k == 0 {
        assert(Seq::new(n, |i: int| if picked(rank, 0, i) { procs[i].burst_time as int } else { 0 }) =~= Seq::new(n, |i: int| 0int));
        lemma_sum_zeros(n);
    } else {
        lemma_fcfs_zero(procs, (k - 1) as nat);
        let r = rank[k - 1] as int;
        assert(procs[r].arrival_time == 0);
        let before = Seq::new(n, |i: int| if picked(rank, k - 1, i) { procs[i].burst_time as int } else { 0 });
        let after = Seq::new(n, |i: int| if picked(rank, k as int, i) { procs[i].burst_time as int } else { 0 });
        assert(!picked(rank, k - 1, r)) by {
            if picked(rank, k - 1, r) {
                let j = choose|j: int| 0 <= j < k - 1 && rank[j] == r;
                assert(rank[j] != rank[k - 1]);
            }
        }
        assert forall|i: int| 0 <= i < n && i != r implies picked(rank, k as int, i) == picked(rank, k - 1, i) by {
            if picked(rank, k as int, i) {
                let j = choose|j: int| 0 <= j < k && rank[j] == i;
                assert(j < k - 1);
            }
        }
        assert(picked(rank, k as int, r));
        assert(after =~= before.update(r, procs[r].burst_time as int));
        lemma_sum_update(before, r, procs[r].burst_time as int);
    }
}

/// With every arrival at 0, FCFS finishes after the total burst time.
pub(crate) proof fn lemma_fcfs_total(procs: Seq<Process>)
    requires
        procs.len() <= usize::MAX,
        all_at_zero(procs),
    ensures
        fcfs_clock(procs, arrival_order(procs), procs.len()) == total_burst(procs),
{
    let rank = arrival_order(procs);
    let n = procs.len();
    lemma_fcfs_zero(procs, n);
    lemma_arrival_order_perm(procs);
    assert forall|i: int| 0 <= i < n implies picked(rank, n as int, i) by {
        assert(ranked(rank, i));
    }
    assert(Seq::new(n, |i: int| if picked(rank, n as int, i) { procs[i].burst_time as int } else { 0 })
        =~= Seq::new(n, |i: int| procs[i].burst_time as int));
}

/// Total burst of the processes not yet done.
spec fn pending_burst(procs: Seq<Process>, done: Seq<bool>) -> int {
    sum(Seq::new(procs.len(), |i: int| if done[i] { 0 } else { procs[i].burst_time as int }))
}

proof fn lemma_np_zero(procs: Seq<Process>, bp: bool, done: Seq<bool>, t: int, left: nat)
    requires
        all_at_zero(procs),
        np_keys_ok(procs, bp),
        done.len() == procs.len(),
        count_false(done) == left,
        left > 0,
        t >= 0,
    ensures
        np_schedule(procs, bp, done, t, left).last().2 == t + pending_burst(procs, done),
    decreases left,
{
    let n = procs.len();
    lemma_count_false_exists(done);
    let i0 = choose|i: int| 0 <= i < done.len() && !done[i];
    assert(pending(procs, done, i0));
    assert(ready(procs, done, t, i0));
    assert(np_clock(procs, done, t) == t);
    let i = pick_exists(procs, bp, done, t);
    lemma_np_pick_unique(procs, bp, done, t, i);
    let end = t + procs[i].burst_time;
    let d2 = done.update(i, true);
    lemma_count_false_update(done, i);
    let before = Seq::new(n, |j: int| if done[j] { 0 } else { procs[j].burst_time as int });
    let after = Seq::new(n, |j: int| if d2[j] { 0 } else { procs[j].burst_time as int });
    assert(after =~= before.update(i, 0));
    lemma_sum_update(before, i, 0);
    let rest = np_schedule(procs, bp, d2, end, (left - 1) as nat);
    let full = np_schedule(procs, bp, done, t, left);
    assert(full =~= seq![(i, t, end)] + rest);
    if left == 1 {
        assert forall|j: int| 0 <= j < n implies #[trigger] d2[j] by {
            if !d2[j] {
                lemma_count_false_update(done, i);
                crate::util::lemma_count_false_pos(d2, j);
            }
        }
        assert(after =~= Seq::new(n, |j: int| 0int));
        lemma_sum_zeros(n);
        lemma_np_schedule_monotone(procs, bp, d2, end, 0);
    } else {
        lemma_np_zero(procs, bp, d2, end, (left - 1) as nat);
        lemma_np_schedule_monotone(procs, bp, d2, end, (left - 1) as nat);
        assert(full.last() == rest.last());
    }
}

/// With every arrival at 0, the non-preemptive schedulers finish after the total burst time.
pub(crate) proof fn lemma_np_total(procs: Seq<Process>, bp: bool)
    requires
        all_at_zero(procs),
        np_keys_ok(procs, bp),
    ensures
        np_finish(procs, bp) == total_burst(procs),
{
    let n = procs.len();
    if n > 0 {
        let done = Seq::new(n, |i: int| false);
        crate::util::lemma_count_false_all(n);
        lemma_np_zero(procs, bp, done, 0, n);
        assert(Seq::new(n, |j: int| if done[j] { 0 } else { procs[j].burst_time as int }) =~= Seq::new(n, |i: int| procs[i].burst_time as int));
    }
}

proof fn lemma_max_arrival_zero(procs: Seq<Process>)
    requires
        all_at_zero(procs),
    ensures
        max_arrival(procs) == 0,
    decreases procs.len(),
{
    if procs.len() > 0 {
        assert(all_at_zero(procs.drop_last())) by {
            assert forall|i: int| 0 <= i < procs.drop_last().len() implies #[trigger] procs.drop_last()[i].arrival_time == 0 by {
                assert(procs.drop_last()[i] == procs[i]);
            }
        }
        lemma_max_arrival_zero(procs.drop_last());
        assert(procs.last() == procs[procs.len() - 1]);
    }
}

/// The waiting times that FCFS reports, in run order.
pub open spec fn fcfs_waits(procs: Seq<Process>) -> Seq<int> {
    let rank = arrival_order(procs);
    Seq::new(procs.len(), |k: int| ((fcfs_start(procs, rank, k as nat) - procs[rank[k] as int].arrival_time) as u64) as int)
}

/// The run order of FCFS, by process id.
pub open spec fn fcfs_ids(procs: Seq<Process>) -> Seq<usize> {
    let rank = arrival_order(procs);
    Seq::new(procs.len(), |k: int| procs[rank[k] as int].id)
}

/// The waiting times that a non-preemptive scheduler reports, in run order.
pub open spec fn np_waits(procs: Seq<Process>, by_priority: bool) -> Seq<int> {
    np_full(procs, by_priority).map_values(|s: (int, int, int)| ((s.1 - procs[s.0].arrival_time) as u64) as int)
}

/// The run order of a non-preemptive scheduler, by process id.
pub open spec fn np_ids(procs: Seq<Process>, by_priority: bool) -> Seq<usize> {
    np_full(procs, by_priority).map_values(|s: (int, int, int)| procs[s.0].id)
}

/// The waiting times that the feedback scheduler reports from its final state `s`, by process.
pub open spec fn fb_waits(procs: Seq<Process>, s: FbState) -> Seq<int> {
    Seq::new(procs.len(), |i: int| ((s.completion[i] - procs[i].arrival_time - procs[i].burst_time) as u64) as int)
}

/// The quantum with which Round Robin is tried.
pub open spec fn agent_quantum() -> Seq<u64> {
    seq![100u64]
}

/// Total waiting time under each algorithm tried: FCFS, SJF, Round Robin and Priority.
pub open spec fn candidate_waits(procs: Seq<Process>) -> Seq<int> {
    seq![
        sum(fcfs_waits(procs)),
        sum(np_waits(procs, false)),
        sum(fb_waits(procs, fb_final(procs, 1, agent_quantum()))),
        sum(np_waits(procs, true)),
    ]
}

/// The order each algorithm tried reports, by process id.
pub open spec fn candidate_orders(procs: Seq<Process>) -> Seq<Seq<usize>> {
    seq![
        fcfs_ids(procs),
        np_ids(procs, false),
        ids_of(procs, fb_final(procs, 1, agent_quantum()).order),
        np_ids(procs, true),
    ]
}

/// The names of the algorithms tried.
pub open spec fn algorithm_names() -> Seq<Seq<char>> {
    seq!["FCFS"@, "SJF"@, "RoundRobin"@, "Priority"@]
}

/// Index of the first smallest of `w[0..k]`.
pub open spec fn first_min(w: Seq<int>, k: int) -> int
    decreases k,
{
    if k <= 1 {
        0
    } else {
        let m = first_min(w, k - 1);
        if w[k - 1] < w[m] {
            k - 1
        } else {
            m
        }
    }
}

/// The algorithm chosen for the tasks: the first with the least total (equivalently,
/// average) waiting time.
pub open spec fn agent_choice(tasks: Seq<AgentTask>) -> int {
    first_min(candidate_waits(agent_procs(tasks)), 4)
}

/// The order of task indices that the chosen algorithm reports.
pub open spec fn agent_order(tasks: Seq<AgentTask>) -> Seq<usize> {
    candidate_orders(agent_procs(tasks))[agent_choice(tasks)]
}

/// Sum of the durations of the tasks at the indices in `order`.
pub open spec fn duration_sum(tasks: Seq<AgentTask>, order: Seq<usize>) -> int
    decreases order.len(),
{
    if order.len() == 0 {
        0
    } else {
        duration_sum(tasks, order.drop_last()) + tasks[order.last() as int].estimated_duration_ms
    }
}

/// `r` lists the tasks at the indices in `order`, each with the time at which it
/// completes when they run back to back from 0, and the total time.
pub open spec fn reports_order(tasks: Seq<AgentTask>, order: Seq<usize>, r: AgentScheduleResult) -> bool {
    &&& r.task_order@.len() == order.len()
    &&& r.estimated_completion@.len() == order.len()
    &&& forall|k: int| 0 <= k < order.len() ==> {
        &&& (#[trigger] r.task_order@[k])@ == tasks[order[k] as int].id@
        &&& r.estimated_completion@[k].0@ == tasks[order[k] as int].id@
        &&& r.estimated_completion@[k].1 == duration_sum(tasks, order.take(k + 1))
    }
    &&& r.total_time_ms == duration_sum(tasks, order)
}

proof fn lemma_duration_prefix(tasks: Seq<AgentTask>, order: Seq<usize>, k: int)
    requires
        0 <= k <= order.len(),
    ensures
        0 <= duration_sum(tasks, order.take(k)) <= duration_sum(tasks, order),
    decreases order.len(),
{
    if k == order.len() {
        assert(order.take(k) =~= order);
        if order.len() > 0 {
            lemma_duration_prefix(tasks, order.drop_last(), 0);
        }
    } else {
        assert(order.take(k) =~= order.drop_last().take(k));
        lemma_duration_prefix(tasks, order.drop_last(), k);
    }
}

/// The waiting values of a result's `(id, waiting)` pairs.
pub open spec fn wait_values(v: Seq<(usize, u64)>) -> Seq<int> {
    v.map_values(|p: (usize, u64)| p.1 as int)
}

fn total_waiting(waits: &Vec<(usize, u64)>) -> (t: u128)
    ensures
        t == sum(wait_values(waits@)),
{
    let mut t: u128 = 0;
    let mut k: usize = 0;
    while k < waits.len()
        invariant
            k <= waits@.len(),
            t == sum(wait_values(waits@.take(k as int))),
            t <= k * 18446744073709551615,
        decreases waits@.len() - k,
    {
        proof {
            assert(wait_values(waits@.take(k + 1)).drop_last() =~= wait_values(waits@.take(k as int)));
            assert(k < 18446744073709551616);
            assert(k * 18446744073709551615 + 18446744073709551615 <= 340282366920938463463374607431768211455) by (nonlinear_arith)
                requires k < 18446744073709551616;
        }
        t = t + waits[k].1 as u128;
        k = k + 1;
    }
    proof {
        assert(waits@.take(k as int) =~= waits@);
    }
    t
}

fn agent_processes(tasks: &[AgentTask]) -> (procs: Vec<Process>)
    ensures
        procs@ == agent_procs(tasks@),
{
    let mut procs: Vec<Process> = Vec::new();
    let mut i: usize = 0;
    while i < tasks.len()
        invariant
            i <= tasks@.len(),
            procs@ =~= agent_procs(tasks@).take(i as int),
        decreases tasks@.len() - i,
    {
        procs.push(Process { id: i, arrival_time: 0, burst_time: tasks[i].estimated_duration_ms, priority: tasks[i].priority });
        i = i + 1;
    }
    proof {
        assert(agent_procs(tasks@).take(i as int) =~= agent_procs(tasks@));
    }
    procs
}

/// Lists the tasks at the indices in `order`, with completion times when they run back
/// to back.
pub(crate) fn report_order(tasks: &[AgentTask], order: &Vec<usize>, algorithm_used: String) -> (r: AgentScheduleResult)
    requires
        forall|k: int| 0 <= k < order@.len() ==> #[trigger] order@[k] < tasks@.len(),
        duration_sum(tasks@, order@) <= u64::MAX,
    ensures
        reports_order(tasks@, order@, r),
        r.algorithm_used == algorithm_used,
{
    let mut task_order: Vec<String> = Vec::new();
    let mut completion: Vec<(String, u64)> = Vec::new();
    let mut time: u64 = 0;
    let mut k: usize = 0;
    proof {
        assert(order@.take(0) =~= Seq::<usize>::empty());
    }
    while k < order.len()
        invariant
            k <= order@.len(),
            forall|j: int| 0 <= j < order@.len() ==> #[trigger] order@[j] < tasks@.len(),
            duration_sum(tasks@, order@) <= u64::MAX,
            time == duration_sum(tasks@, order@.take(k as int)),
            task_order@.len() == k,
            completion@.len() == k,
            forall|j: int| 0 <= j < k ==> {
                &&& (#[trigger] task_order@[j])@ == tasks@[order@[j] as int].id@
                &&& completion@[j].0@ == tasks@[order@[j] as int].id@
                &&& completion@[j].1 == duration_sum(tasks@, order@.take(j + 1))
            },
        decreases order@.len() - k,
    {
        let pid = order[k];
        proof {
            assert(order@.take(k + 1).drop_last() =~= order@.take(k as int));
            lemma_duration_prefix(tasks@, order@, k + 1);
        }
        time = time + tasks[pid].estimated_duration_ms;
        completion.push((tasks[pid].id.clone(), time));
        task_order.push(tasks[pid].id.clone());
        k = k + 1;
    }
    proof {
        assert(order@.take(k as int) =~= order@);
    }
    AgentScheduleResult { task_order, total_time_ms: time, estimated_completion: completion, algorithm_used }
}

/// Facts about the four schedules of tasks that all arrive at 0.
proof fn lemma_agent_schedules(tasks: Seq<AgentTask>)
    requires
        forall|i: int| 0 <= i < tasks.len() ==> (#[trigger] tasks[i]).estimated_duration_ms < u64::MAX && tasks[i].priority < u32::MAX,
        total_burst(agent_procs(tasks)) <= u64::MAX,
        tasks.len() <= usize::MAX,
    ensures
        ({
            let procs = agent_procs(tasks);
            &&& fcfs_clock(procs, arrival_order(procs), procs.len()) <= u64::MAX
            &&& np_keys_ok(procs, false)
            &&& np_finish(procs, false) <= u64::MAX
            &&& np_keys_ok(procs, true)
            &&& np_finish(procs, true) <= u64::MAX
            &&& fb_runnable(procs, 1, agent_quantum())
            &&& np_full(procs, false).len() == procs.len()
            &&& np_full(procs, true).len() == procs.len()
            &&& forall|c: int, k: int| 0 <= c < 4 && 0 <= k < candidate_orders(procs)[c].len() ==> #[trigger] candidate_orders(procs)[c][k] < tasks.len()
        }),
{
    let procs = agent_procs(tasks);
    let n = procs.len();
    let rank = arrival_order(procs);
    let rr = fb_final(procs, 1, agent_quantum());
    assert(all_at_zero(procs));
    assert(np_keys_ok(procs, false));
    assert(np_keys_ok(procs, true));
    lemma_fcfs_total(procs);
    lemma_np_total(procs, false);
    lemma_np_total(procs, true);
    lemma_max_arrival_zero(procs);
    assert(positive_quanta(1, agent_quantum())) by {
        assert forall|q: int| 0 <= q < 1 implies #[trigger] crate::feedback::quantum_of(agent_quantum(), q) > 0 by {}
    }
    lemma_fb_runnable(procs, 1, agent_quantum());
    lemma_arrival_order_perm(procs);
    lemma_init_good(procs, 1);
    let f = fb_fuel(procs, 1, agent_quantum());
    lemma_run_inv(procs, rank, 1, agent_quantum(), fb_start(procs, 1), f, f);
    crate::util::lemma_count_false_all(n);
    lemma_np_schedule_monotone(procs, false, Seq::new(n, |i: int| false), 0, n);
    lemma_np_schedule_monotone(procs, true, Seq::new(n, |i: int| false), 0, n);
    let co = candidate_orders(procs);
    assert forall|c: int, k: int| 0 <= c < 4 && 0 <= k < co[c].len() implies #[trigger] co[c][k] < tasks.len() by {
        if c == 0 {
            assert(rank[k] < n);
        } else if c == 1 {
            assert(np_full(procs, false)[k].0 < n);
        } else if c == 2 {
            assert(rr.order[k] < n);
        } else {
            assert(np_full(procs, true)[k].0 < n);
        }
    }
}

/// Index of the first smallest of the four totals.
fn pick_least(w0: u128, w1: u128, w2: u128, w3: u128) -> (b: usize)
    ensures
        b as int == first_min(seq![w0 as int, w1 as int, w2 as int, w3 as int], 4),
        b < 4,
{
    let ghost w = seq![w0 as int, w1 as int, w2 as int, w3 as int];
    let mut best: usize = 0;
    let mut best_w: u128 = w0;
    assert(first_min(w, 1) == 0);
    if w1 < best_w {
        best = 1;
        best_w = w1;
    }
    assert(best as int == first_min(w, 2));
    if w2 < best_w {
        best = 2;
        best_w = w2;
    }
    assert(best as int == first_min(w, 3));
    if w3 < best_w {
        best = 3;
    }
    best
}

/// The name of the `c`-th algorithm tried.
fn algorithm_name(c: usize) -> (s: String)
    requires
        c < 4,
    ensures
        s@ == algorithm_names()[c as int],
{
    if c == 0 {
        "FCFS".to_owned()
    } else if c == 1 {
        "SJF".to_owned()
    } else if c == 2 {
        "RoundRobin".to_owned()
    } else {
        "Priority".to_owned()
    }
}

/// Schedule agent tasks using the best algorithm: each task becomes a process arriving at
/// 0, FCFS, SJF, Round Robin (quantum 100) and Priority are run, and the first of them
/// with the least average waiting time gives the order; completion times are the running
/// sums of the durations along that order.
#[verifier::rlimit(30)]
pub fn schedule_agent_tasks(tasks: &[AgentTask]) -> (r: AgentScheduleResult)
    requires
        tasks@.len() > 0,
        forall|i: int| 0 <= i < tasks@.len() ==> (#[trigger] tasks@[i]).estimated_duration_ms < u64::MAX && tasks@[i].priority < u32::MAX,
        total_burst(agent_procs(tasks@)) <= u64::MAX,
        duration_sum(tasks@, agent_order(tasks@)) <= u64::MAX,
    ensures
        reports_order(tasks@, agent_order(tasks@), r),
        r.algorithm_used@ == algorithm_names()[agent_choice(tasks@)],
{
    let processes = agent_processes(tasks);
    let ghost procs = processes@;
    proof {
        lemma_agent_schedules(tasks@);
    }
    let quantum: u64 = 100;
    proof {
        assert(seq![quantum] =~= agent_quantum());
    }
    let r_fcfs = fcfs(processes.as_slice());
    let r_sjf = sjf(processes.as_slice());
    let r_rr = round_robin(processes.as_slice(), quantum);
    let r_pri = priority_schedule(processes.as_slice());
    let w0 = total_waiting(&r_fcfs.waiting_times);
    let w1 = total_waiting(&r_sjf.waiting_times);
    let w2 = total_waiting(&r_rr.waiting_times);
    let w3 = total_waiting(&r_pri.waiting_times);
    let ghost co = candidate_orders(procs);
    proof {
        assert(wait_values(r_fcfs.waiting_times@) =~= fcfs_waits(procs));
        assert(wait_values(r_sjf.waiting_times@) =~= np_waits(procs, false));
        assert(wait_values(r_rr.waiting_times@) =~= fb_waits(procs, fb_final(procs, 1, agent_quantum())));
        assert(wait_values(r_pri.waiting_times@) =~= np_waits(procs, true));
        assert(seq![w0 as int, w1 as int, w2 as int, w3 as int] =~= candidate_waits(procs));
        assert(r_fcfs.order@ =~= co[0]);
        assert(r_sjf.order@ =~= co[1]);
        assert(r_rr.order@ =~= co[2]);
        assert(r_pri.order@ =~= co[3]);
    }
    let best = pick_least(w0, w1, w2, w3);
    let order: &Vec<usize> = if best == 0 {
        &r_fcfs.order
    } else if best == 1 {
        &r_sjf.order
    } else if best == 2 {
        &r_rr.order
    } else {
        &r_pri.order
    };
    proof {
        assert(order@ == co[best as int]);
        assert forall|k: int| 0 <= k < order@.len() implies #[trigger] order@[k] < tasks@.len() by {
            assert(co[best as int][k] < tasks@.len());
        }
    }
    report_order(tasks, order, algorithm_name(best))
}

proof fn lemma_picked_step(procs: Seq<Process>, k: int)
    requires
        procs.len() <= usize::MAX,
        0 < k <= procs.len(),
    ensures
        picked_burst(procs, arrival_order(procs), k)
            == picked_burst(procs, arrival_order(procs), k - 1) + procs[arrival_order(procs)[k - 1] as int].burst_time,
{
    let rank = arrival_order(procs);
    let n = procs.len();
    lemma_arrival_order_perm(procs);
    let r = rank[k - 1] as int;
    let before = Seq::new(n, |i: int| if picked(rank, k - 1, i) { procs[i].burst_time as int } else { 0 });
    let after = Seq::new(n, |i: int| if picked(rank, k, i) { procs[i].burst_time as int } else { 0 });
    assert(!picked(rank, k - 1, r)) by {
        if picked(rank, k - 1, r) {
            let j = choose|j: int| 0 <= j < k - 1 && rank[j] == r;
            assert(rank[j] != rank[k - 1]);
        }
    }
    assert forall|i: int| 0 <= i < n && i != r implies picked(rank, k, i) == picked(rank, k - 1, i) by {
        if picked(rank, k, i) {
            let j = choose|j: int| 0 <= j < k && rank[j] == i;
            assert(j < k - 1);
        }
    }
    assert(picked(rank, k, r));
    assert(after =~= before.update(r, procs[r].burst_time as int));
    lemma_sum_update(before, r, procs[r].burst_time as int);
}

proof fn lemma_fcfs_bound_k(procs: Seq<Process>, k: nat)
    requires
        procs.len() <= usize::MAX,
        k <= procs.len(),
    ensures
        0 <= fcfs_clock(procs, arrival_order(procs), k) <= max_arrival(procs) + picked_burst(procs, arrival_order(procs), k as int),
        picked_burst(procs, arrival_order(procs), k as int) >= 0,
    decreases k,
{
    let rank = arrival_order(procs);
    let n = procs.len();
    lemma_arrival_order_perm(procs);
    crate::feedback_laws::lemma_max_arrival(procs);
    if k == 0 {
        assert(Seq::new(n, |i: int| if picked(rank, 0, i) { procs[i].burst_time as int } else { 0 }) =~= Seq::new(n, |i: int| 0int));
        lemma_sum_zeros(n);
    } else {
        lemma_fcfs_bound_k(procs, (k - 1) as nat);
        lemma_picked_step(procs, k as int);
        assert(procs[rank[k - 1] as int].arrival_time <= max_arrival(procs));
    }
}

/// FCFS ends by the latest arrival plus the total burst time, so it may be run whenever
/// that sum fits in `u64`.
pub proof fn lemma_fcfs_fits(procs: Seq<Process>)
    requires
        procs.len() <= usize::MAX,
    ensures
        fcfs_clock(procs, arrival_order(procs), procs.len()) <= max_arrival(procs) + total_burst(procs),
{
    let rank = arrival_order(procs);
    let n = procs.len();
    lemma_fcfs_bound_k(procs, n);
    lemma_arrival_order_perm(procs);
    assert forall|i: int| 0 <= i < n implies picked(rank, n as int, i) by {
        assert(ranked(rank, i));
    }
    assert(Seq::new(n, |i: int| if picked(rank, n as int, i) { procs[i].burst_time as int } else { 0 })
        =~= Seq::new(n, |i: int| procs[i].burst_time as int));
}

proof fn lemma_np_bound(procs: Seq<Process>, bp: bool, done: Seq<bool>, t: int, left: nat)
    requires
        np_keys_ok(procs, bp),
        done.len() == procs.len(),
        count_false(done) == left,
        left > 0,
        t >= 0,
    ensures
        np_schedule(procs, bp, done, t, left).last().2 <= later(t, max_arrival(procs)) + pending_burst(procs, done),
    decreases left,
{
    let n = procs.len();
    crate::feedback_laws::lemma_max_arrival(procs);
    lemma_count_false_exists(done);
    let i0 = choose|i: int| 0 <= i < done.len() && !done[i];
    assert(pending(procs, done, i0));
    crate::scheduling::lemma_np_clock(procs, done, t);
    let start = np_clock(procs, done, t);
    assert(start <= later(t, max_arrival(procs))) by {
        if !(exists|j: int| #[trigger] ready(procs, done, t, j)) {
            let (a, ia) = crate::scheduling::choose_earliest(procs, done);
            crate::scheduling::lemma_earliest_unique(procs, done, a);
            assert(procs[ia].arrival_time <= max_arrival(procs));
        }
    }
    let i = pick_exists(procs, bp, done, start);
    lemma_np_pick_unique(procs, bp, done, start, i);
    let end = start + procs[i].burst_time;
    let d2 = done.update(i, true);
    lemma_count_false_update(done, i);
    let before = Seq::new(n, |j: int| if done[j] { 0 } else { procs[j].burst_time as int });
    let after = Seq::new(n, |j: int| if d2[j] { 0 } else { procs[j].burst_time as int });
    assert(after =~= before.update(i, 0));
    lemma_sum_update(before, i, 0);
    crate::util::lemma_sum_nonneg(after);
    let rest = np_schedule(procs, bp, d2, end, (left - 1) as nat);
    let full = np_schedule(procs, bp, done, t, left);
    assert(full =~= seq![(i, start, end)] + rest);
    if left > 1 {
        lemma_np_bound(procs, bp, d2, end, (left - 1) as nat);
        crate::scheduling::lemma_np_schedule_monotone(procs, bp, d2, end, (left - 1) as nat);
        assert(full.last() == rest.last());
    }
}

/// SJF and Priority end by the latest arrival plus the total burst time, so either may be
/// run whenever every key is selectable and that sum fits in `u64`.
pub proof fn lemma_np_fits(procs: Seq<Process>, by_priority: bool)
    requires
        np_keys_ok(procs, by_priority),
    ensures
        np_finish(procs, by_priority) <= max_arrival(procs) + total_burst(procs),
{
    let n = procs.len();
    crate::feedback_laws::lemma_max_arrival(procs);
    if n > 0 {
        let done = Seq::new(n, |i: int| false);
        crate::util::lemma_count_false_all(n);
        lemma_np_bound(procs, by_priority, done, 0, n);
        assert(Seq::new(n, |j: int| if done[j] { 0 } else { procs[j].burst_time as int }) =~= Seq::new(n, |i: int| procs[i].burst_time as int));
    }
}

} // verus!
