use vstd::prelude::*;
use crate::scheduling::{Process, ScheduleResult, later, arrival_order, sort_by_arrival};

verus! {

/// State of the multi-level feedback queue simulation.
pub struct FbState {
    /// Ready queues of process indices, highest priority first.
    pub queues: Seq<Seq<usize>>,
    /// CPU time each process still needs.
    pub remaining: Seq<int>,
    /// When each process first got the CPU.
    pub first_run: Seq<Option<int>>,
    /// When each process completed.
    pub completion: Seq<int>,
    /// The queue level of each process.
    pub level: Seq<int>,
    pub time: int,
    /// How many processes of the arrival order have been admitted.
    pub next: int,
    pub visited: Seq<bool>,
    pub completed: int,
    /// Process indices in the order of the time slices they got.
    pub order: Seq<usize>,
    /// Which processes have completed.
    pub done: Seq<bool>,
}

/// Admits, in arrival order, every process that has arrived by now and is not
/// yet queued, into the top queue.
pub open spec fn fb_admit(procs: Seq<Process>, rank: Seq<usize>, s: FbState) -> FbState
    decreases procs.len() - s.next,
{
    if 0 <= s.next < procs.len() && procs[rank[s.next] as int].arrival_time <= s.time {
        let ni = rank[s.next];
        let s2 = if !s.visited[ni as int] {
            FbState {
                queues: s.queues.update(0, s.queues[0].push(ni)),
                visited: s.visited.update(ni as int, true),
                ..s
            }
        } else {
            s
        };
        fb_admit(procs, rank, FbState { next: s.next + 1, ..s2 })
    } else {
        s
    }
}

/// The first non-empty queue at or after `q`, or -1.
pub open spec fn first_active(queues: Seq<Seq<usize>>, q: int) -> int
    decreases queues.len() - q,
{
    if q < 0 || q >= queues.len() {
        -1
    } else if queues[q].len() > 0 {
        q
    } else {
        first_active(queues, q + 1)
    }
}

pub open spec fn spec_min(a: int, b: int) -> int {
    if a <= b {
        a
    } else {
        b
    }
}

/// The time quantum of queue `q`; levels past the end of `quanta` use its last entry.
pub open spec fn quantum_of(quanta: Seq<u64>, q: int) -> int {
    quanta[spec_min(q, quanta.len() - 1)] as int
}

/// The state in which the simulation starts.
pub open spec fn fb_init(procs: Seq<Process>, rank: Seq<usize>, nq: int) -> FbState {
    let n = procs.len();
    fb_admit(
        procs,
        rank,
        FbState {
            queues: Seq::new(nq as nat, |q: int| Seq::empty()),
            remaining: Seq::new(n, |i: int| procs[i].burst_time as int),
            first_run: Seq::new(n, |i: int| None),
            completion: Seq::new(n, |i: int| 0),
            level: Seq::new(n, |i: int| 0),
            time: 0,
            next: 0,
            visited: Seq::new(n, |i: int| false),
            completed: 0,
            order: Seq::empty(),
            done: Seq::new(n, |i: int| false),
        },
    )
}

/// Every process has completed.
pub open spec fn fb_finished(procs: Seq<Process>, s: FbState) -> bool {
    s.completed >= procs.len()
}

/// The simulation stops: everything completed, or nothing is queued and nothing
/// is left to admit.
pub open spec fn fb_stopped(procs: Seq<Process>, s: FbState) -> bool {
    fb_finished(procs, s) || (first_active(s.queues, 0) < 0 && s.next >= procs.len())
}

/// One round of the scheduler: when every queue is empty, the clock jumps to the
/// next arrival, which is admitted; otherwise the head of the highest non-empty
/// queue runs for at most its quantum, newly arrived processes are admitted, and the
/// process is demoted one level if unfinished, or marked complete.
pub open spec fn fb_step(
    procs: Seq<Process>,
    rank: Seq<usize>,
    nq: int,
    quanta: Seq<u64>,
    s: FbState,
) -> FbState {
    let q = first_active(s.queues, 0);
    if q < 0 {
        let ni = rank[s.next];
        FbState {
            time: later(s.time, procs[ni as int].arrival_time as int),
            queues: s.queues.update(0, s.queues[0].push(ni)),
            visited: s.visited.update(ni as int, true),
            next: s.next + 1,
            ..s
        }
    } else {
        let idx = s.queues[q][0];
        let i = idx as int;
        let ran = spec_min(s.remaining[i], quantum_of(quanta, q));
        let s1 = FbState {
            queues: s.queues.update(q, s.queues[q].drop_first()),
            first_run: if s.first_run[i] is None {
                s.first_run.update(i, Some(s.time))
            } else {
                s.first_run
            },
            remaining: s.remaining.update(i, s.remaining[i] - ran),
            time: s.time + ran,
            order: s.order.push(idx),
            ..s
        };
        let s2 = fb_admit(procs, rank, s1);
        if s2.remaining[i] > 0 {
            let nl = spec_min(s2.level[i] + 1, nq - 1);
            FbState {
                level: s2.level.update(i, nl),
                queues: s2.queues.update(nl, s2.queues[nl].push(idx)),
                ..s2
            }
        } else {
            FbState {
                completion: s2.completion.update(i, s2.time),
                completed: s2.completed + 1,
                done: s2.done.update(i, true),
                ..s2
            }
        }
    }
}

/// The state after at most `fuel` rounds.
pub open spec fn fb_run(
    procs: Seq<Process>,
    rank: Seq<usize>,
    nq: int,
    quanta: Seq<u64>,
    s: FbState,
    fuel: nat,
) -> FbState
    decreases fuel,
{
    if fuel == 0 || fb_stopped(procs, s) {
        s
    } else {
        fb_run(procs, rank, nq, quanta, fb_step(procs, rank, nq, quanta, s), (fuel - 1) as nat)
    }
}

pub proof fn lemma_run_step(
    procs: Seq<Process>,
    rank: Seq<usize>,
    nq: int,
    quanta: Seq<u64>,
    s: FbState,
    k: nat,
)
    requires
        !fb_stopped(procs, fb_run(procs, rank, nq, quanta, s, k)),
    ensures
        fb_run(procs, rank, nq, quanta, s, k + 1) == fb_step(
            procs,
            rank,
            nq,
            quanta,
            fb_run(procs, rank, nq, quanta, s, k),
        ),
    decreases k,
{
    if k > 0 {
        if fb_stopped(procs, s) {
            assert(fb_run(procs, rank, nq, quanta, s, k) == s);
        } else {
            let s1 = fb_step(procs, rank, nq, quanta, s);
            assert(fb_run(procs, rank, nq, quanta, s, k) == fb_run(procs, rank, nq, quanta, s1, (k - 1) as nat));
            lemma_run_step(procs, rank, nq, quanta, s1, (k - 1) as nat);
            assert(fb_run(procs, rank, nq, quanta, s, k + 1) == fb_run(procs, rank, nq, quanta, s1, k));
        }
    } else {
        assert(fb_run(procs, rank, nq, quanta, s, 0) == s);
        assert(fb_run(procs, rank, nq, quanta, fb_step(procs, rank, nq, quanta, s), 0) == fb_step(procs, rank, nq, quanta, s));
    }
}

pub proof fn lemma_run_stopped(
    procs: Seq<Process>,
    rank: Seq<usize>,
    nq: int,
    quanta: Seq<u64>,
    s: FbState,
    k: nat,
    m: nat,
)
    requires
        fb_stopped(procs, fb_run(procs, rank, nq, quanta, s, k)),
        k <= m,
    ensures
        fb_run(procs, rank, nq, quanta, s, m) == fb_run(procs, rank, nq, quanta, s, k),
    decreases k,
{
    if k > 0 && !fb_stopped(procs, s) {
        lemma_run_stopped(procs, rank, nq, quanta, fb_step(procs, rank, nq, quanta, s), (k - 1) as nat, (m - 1) as nat);
    }
}

/// Shape facts that every state of the simulation keeps.
pub open spec fn fb_inv(procs: Seq<Process>, rank: Seq<usize>, nq: int, s: FbState) -> bool {
    let n = procs.len();
    &&& rank.len() == n
    &&& forall|k: int| 0 <= k < n ==> rank[k] < n
    &&& n > 0 ==> nq >= 1
    &&& s.queues.len() == nq
    &&& s.remaining.len() == n
    &&& s.first_run.len() == n
    &&& s.completion.len() == n
    &&& s.level.len() == n
    &&& s.visited.len() == n
    &&& s.done.len() == n
    &&& 0 <= s.next <= n
    &&& 0 <= s.completed
    &&& s.time >= 0
    &&& forall|i: int| 0 <= i < n ==> #[trigger] s.remaining[i] >= 0
    &&& forall|i: int| 0 <= i < n ==> 0 <= #[trigger] s.level[i] < nq
    &&& forall|q: int, k: int|
        0 <= q < s.queues.len() && 0 <= k < s.queues[q].len() ==> #[trigger] s.queues[q][k] < n
    &&& forall|k: int| 0 <= k < s.order.len() ==> #[trigger] s.order[k] < n
}

pub proof fn lemma_admit_inv(procs: Seq<Process>, rank: Seq<usize>, nq: int, s: FbState)
    requires
        fb_inv(procs, rank, nq, s),
    ensures
        fb_inv(procs, rank, nq, fb_admit(procs, rank, s)),
        fb_admit(procs, rank, s).time == s.time,
        fb_admit(procs, rank, s).remaining == s.remaining,
        fb_admit(procs, rank, s).level == s.level,
        fb_admit(procs, rank, s).completion == s.completion,
        fb_admit(procs, rank, s).first_run == s.first_run,
        fb_admit(procs, rank, s).completed == s.completed,
        fb_admit(procs, rank, s).order == s.order,
        fb_admit(procs, rank, s).done == s.done,
        fb_admit(procs, rank, s).next >= s.next,
    decreases procs.len() - s.next,
{
    if 0 <= s.next < procs.len() && procs[rank[s.next] as int].arrival_time <= s.time {
        let ni = rank[s.next];
        let s2 = if !s.visited[ni as int] {
            FbState {
                queues: s.queues.update(0, s.queues[0].push(ni)),
                visited: s.visited.update(ni as int, true),
                ..s
            }
        } else {
            s
        };
        let s3 = FbState { next: s.next + 1, ..s2 };
        assert forall|q: int, k: int|
            0 <= q < s3.queues.len() && 0 <= k < s3.queues[q].len() implies #[trigger] s3.queues[q][k] < procs.len() by {
            if q == 0 && !s.visited[ni as int] && k == s.queues[0].len() {
            } else {
                assert(s3.queues[q][k] == s.queues[q][k]);
            }
        }
        lemma_admit_inv(procs, rank, nq, s3);
    }
}

pub proof fn lemma_step_inv(procs: Seq<Process>, rank: Seq<usize>, nq: int, quanta: Seq<u64>, s: FbState)
    requires
        fb_inv(procs, rank, nq, s),
        !fb_stopped(procs, s),
    ensures
        fb_inv(procs, rank, nq, fb_step(procs, rank, nq, quanta, s)),
        fb_step(procs, rank, nq, quanta, s).time >= s.time,
{
    let q = first_active(s.queues, 0);
    lemma_first_active(s.queues, 0);
    if q < 0 {
        let ni = rank[s.next];
        let t = fb_step(procs, rank, nq, quanta, s);
        assert forall|p: int, k: int|
            0 <= p < t.queues.len() && 0 <= k < t.queues[p].len() implies #[trigger] t.queues[p][k] < procs.len() by {
            if p == 0 && k == s.queues[0].len() {
            } else {
                assert(t.queues[p][k] == s.queues[p][k]);
            }
        }
    } else {
        let idx = s.queues[q][0];
        let i = idx as int;
        assert(s.queues[q][0] < procs.len());
        let ran = spec_min(s.remaining[i], quantum_of(quanta, q));
        let s1 = FbState {
            queues: s.queues.update(q, s.queues[q].drop_first()),
            first_run: if s.first_run[i] is None {
                s.first_run.update(i, Some(s.time))
            } else {
                s.first_run
            },
            remaining: s.remaining.update(i, s.remaining[i] - ran),
            time: s.time + ran,
            order: s.order.push(idx),
            ..s
        };
        assert forall|p: int, k: int|
            0 <= p < s1.queues.len() && 0 <= k < s1.queues[p].len() implies #[trigger] s1.queues[p][k] < procs.len() by {
            if p == q {
                assert(s1.queues[p][k] == s.queues[p][k + 1]);
            } else {
                assert(s1.queues[p][k] == s.queues[p][k]);
            }
        }
        assert forall|k: int| 0 <= k < s1.order.len() implies #[trigger] s1.order[k] < procs.len() by {
            if k < s.order.len() {
                assert(s1.order[k] == s.order[k]);
            }
        }
        assert(fb_inv(procs, rank, nq, s1));
        lemma_admit_inv(procs, rank, nq, s1);
        let s2 = fb_admit(procs, rank, s1);
        let t = fb_step(procs, rank, nq, quanta, s);
        if s2.remaining[i] > 0 {
            let nl = spec_min(s2.level[i] + 1, nq - 1);
            assert forall|p: int, k: int|
                0 <= p < t.queues.len() && 0 <= k < t.queues[p].len() implies #[trigger] t.queues[p][k] < procs.len() by {
                if p == nl && k == s2.queues[nl].len() {
                } else {
                    assert(t.queues[p][k] == s2.queues[p][k]);
                }
            }
        }
    }
}

pub proof fn lemma_first_active(queues: Seq<Seq<usize>>, q: int)
    requires
        0 <= q,
    ensures
        first_active(queues, q) < 0 ==> forall|p: int| q <= p < queues.len() ==> #[trigger] queues[p].len() == 0,
        first_active(queues, q) >= 0 ==> q <= first_active(queues, q) < queues.len() && queues[first_active(queues, q)].len() > 0
            && forall|p: int| q <= p < first_active(queues, q) ==> #[trigger] queues[p].len() == 0,
    decreases queues.len() - q,
{
    if q < queues.len() && queues[q].len() == 0 {
        lemma_first_active(queues, q + 1);
    }
}

pub proof fn lemma_run_inv(
    procs: Seq<Process>,
    rank: Seq<usize>,
    nq: int,
    quanta: Seq<u64>,
    s: FbState,
    k: nat,
    m: nat,
)
    requires
        fb_inv(procs, rank, nq, s),
        k <= m,
    ensures
        fb_inv(procs, rank, nq, fb_run(procs, rank, nq, quanta, s, k)),
        fb_run(procs, rank, nq, quanta, s, k).time <= fb_run(procs, rank, nq, quanta, s, m).time,
    decreases m,
{
    if m > 0 && !fb_stopped(procs, s) {
        let s1 = fb_step(procs, rank, nq, quanta, s);
        lemma_step_inv(procs, rank, nq, quanta, s);
        if k > 0 {
            lemma_run_inv(procs, rank, nq, quanta, s1, (k - 1) as nat, (m - 1) as nat);
        } else {
            lemma_run_inv(procs, rank, nq, quanta, s1, 0, (m - 1) as nat);
        }
    }
}

/// The initial state for `procs`.
pub open spec fn fb_start(procs: Seq<Process>, nq: int) -> FbState {
    fb_init(procs, arrival_order(procs), nq)
}

/// The simulation completes every process after finitely many rounds.
pub open spec fn fb_halts(procs: Seq<Process>, nq: int, quanta: Seq<u64>) -> bool {
    exists|f: nat| fb_finished(procs, fb_run(procs, arrival_order(procs), nq, quanta, fb_start(procs, nq), f))
}

/// The state in which the simulation completes.
pub open spec fn fb_final(procs: Seq<Process>, nq: int, quanta: Seq<u64>) -> FbState {
    fb_run(procs, arrival_order(procs), nq, quanta, fb_start(procs, nq), fb_fuel(procs, nq, quanta))
}

/// A number of rounds after which the simulation has completed.
pub open spec fn fb_fuel(procs: Seq<Process>, nq: int, quanta: Seq<u64>) -> nat {
    choose|f: nat| fb_finished(procs, fb_run(procs, arrival_order(procs), nq, quanta, fb_start(procs, nq), f))
}

/// Each process got the CPU no earlier than its arrival, and completed no earlier
/// than its arrival plus its burst.
pub open spec fn fb_well_ended(procs: Seq<Process>, s: FbState) -> bool {
    forall|i: int| 0 <= i < procs.len() ==> {
        &&& #[trigger] s.first_run[i] is Some
        &&& procs[i].arrival_time <= s.first_run[i]->0
        &&& procs[i].arrival_time + procs[i].burst_time <= s.completion[i]
    }
}

/// What the scheduler may be run on: at least one queue and one quantum when
/// there are processes, termination, and a final time that fits.
pub open spec fn fb_runnable(procs: Seq<Process>, nq: int, quanta: Seq<u64>) -> bool {
    &&& procs.len() > 0 ==> nq >= 1 && quanta.len() >= 1
    &&& fb_halts(procs, nq, quanta)
    &&& fb_final(procs, nq, quanta).time <= u64::MAX
}

/// `r` reports the final state `s`: slices in order, and per process (in input
/// order) turnaround = completion - arrival, waiting = turnaround - burst and
/// response = first run - arrival.
pub open spec fn fb_result(procs: Seq<Process>, s: FbState, r: ScheduleResult) -> bool {
    &&& r.order@ == ids_of(procs, s.order)
    &&& r.turnaround_times@.len() == procs.len()
    &&& r.waiting_times@.len() == procs.len()
    &&& r.response_times@.len() == procs.len()
    &&& forall|i: int| 0 <= i < procs.len() ==> {
        let p = #[trigger] procs[i];
        &&& r.turnaround_times@[i] == (p.id, (s.completion[i] - p.arrival_time) as u64)
        &&& r.waiting_times@[i] == (p.id, (s.completion[i] - p.arrival_time - p.burst_time) as u64)
        &&& r.response_times@[i] == (p.id, (s.first_run[i]->0 - p.arrival_time) as u64)
    }
    &&& r.total_time == s.time
}

/// Runs the multi-level feedback queue simulation to completion.
pub fn feedback_schedule(processes: &[Process], num_queues: usize, quanta: &[u64]) -> (r: ScheduleResult)
    requires
        fb_runnable(processes@, num_queues as int, quanta@),
    ensures
        fb_result(processes@, fb_final(processes@, num_queues as int, quanta@), r),
{
    let n = processes.len();
    let ghost procs = processes@;
    let ghost nq = num_queues as int;
    proof {
        crate::feedback_laws::lemma_halts_well_ended(procs, nq, quanta@);
    }
    let rank = sort_by_arrival(processes);
    let mut queues: Vec<Vec<usize>> = Vec::new();
    let mut q: usize = 0;
    while q < num_queues
        invariant
            q <= num_queues,
            queues_view(queues@) =~= Seq::new(q as nat, |p: int| Seq::<usize>::empty()),
        decreases num_queues - q,
    {
        let ghost old_q = queues@;
        let fresh: Vec<usize> = Vec::new();
        queues.push(fresh);
        proof {
            assert(queues_view(queues@) =~= queues_view(old_q).push(Seq::<usize>::empty()));
        }
        q = q + 1;
    }
    let mut remaining: Vec<u64> = Vec::new();
    let mut first_run: Vec<Option<u64>> = Vec::new();
    let mut completion: Vec<u64> = Vec::new();
    let mut level: Vec<usize> = Vec::new();
    let mut visited: Vec<bool> = Vec::new();
    let mut i: usize = 0;
    while i < n
        invariant
            i <= n,
            n == procs.len(),
            procs == processes@,
            u64s(remaining@) =~= Seq::new(i as nat, |j: int| procs[j].burst_time as int),
            opt_u64s(first_run@) =~= Seq::new(i as nat, |j: int| None),
            u64s(completion@) =~= Seq::new(i as nat, |j: int| 0),
            usizes(level@) =~= Seq::new(i as nat, |j: int| 0),
            visited@ =~= Seq::new(i as nat, |j: int| false),
        decreases n - i,
    {
        let ghost (r0, f0, c0, l0) = (remaining@, first_run@, completion@, level@);
        remaining.push(processes[i].burst_time);
        first_run.push(None);
        completion.push(0);
        level.push(0);
        visited.push(false);
        proof {
            assert(u64s(remaining@) =~= u64s(r0).push(procs[i as int].burst_time as int));
            assert(opt_u64s(first_run@) =~= opt_u64s(f0).push(None));
            assert(u64s(completion@) =~= u64s(c0).push(0));
            assert(usizes(level@) =~= usizes(l0).push(0));
        }
        i = i + 1;
    }
    let mut run = FbRun {
        queues,
        remaining,
        first_run,
        completion,
        level,
        time: 0,
        next: 0,
        visited,
        completed: 0,
        order: Vec::new(),
        order_idx: Ghost(Seq::empty()),
        done: Ghost(Seq::new(n as nat, |j: int| false)),
    };
    proof {
        assert(run.order@ =~= ids_of(procs, run.order_idx@));
    }
    run.admit_arrivals(processes, &rank, Ghost(nq));
    let ghost init = fb_start(procs, nq);
    let ghost f = fb_fuel(procs, nq, quanta@);
    let ghost mut k: nat = 0;
    proof {
        assert(run.state() == init);
        assert(fb_run(procs, rank@, nq, quanta@, init, 0) == init);
    }
    while run.completed < n
        invariant
            n == procs.len(),
            procs == processes@,
            nq == num_queues as int,
            rank@ == arrival_order(procs),
            init == fb_start(procs, nq),
            fb_runnable(procs, nq, quanta@),
            fb_finished(procs, fb_run(procs, rank@, nq, quanta@, init, f)),
            fb_inv(procs, rank@, nq, init),
            run.wf(procs, rank@, nq),
            run.state() == fb_run(procs, rank@, nq, quanta@, init, k),
            k <= f,
            f == fb_fuel(procs, nq, quanta@),
        decreases f - k,
    {
        proof {
            if fb_stopped(procs, run.state()) {
                lemma_run_stopped(procs, rank@, nq, quanta@, init, k, f);
            }
            assert(k < f) by {
                if k == f {
                    assert(fb_finished(procs, run.state()));
                }
            }
            lemma_run_step(procs, rank@, nq, quanta@, init, k);
            lemma_run_inv(procs, rank@, nq, quanta@, init, k + 1, f);
            assert(fb_final(procs, nq, quanta@) == fb_run(procs, rank@, nq, quanta@, init, f));
            assert(fb_step(procs, rank@, nq, quanta@, run.state()) == fb_run(procs, rank@, nq, quanta@, init, k + 1));
            assert(fb_step(procs, rank@, nq, quanta@, run.state()).time <= u64::MAX);
        }
        run.step(processes, &rank, num_queues, quanta);
        proof {
            k = k + 1;
        }
    }
    proof {
        lemma_run_stopped(procs, rank@, nq, quanta@, init, k, f);
    }
    let ghost fin = run.state();
    let mut turnaround_times: Vec<(usize, u64)> = Vec::new();
    let mut waiting_times: Vec<(usize, u64)> = Vec::new();
    let mut response_times: Vec<(usize, u64)> = Vec::new();
    let mut i: usize = 0;
    while i < n
        invariant
            i <= n,
            n == procs.len(),
            procs == processes@,
            run.state() == fin,
            fin == fb_final(procs, nq, quanta@),
            fb_well_ended(procs, fin),
            fb_inv(procs, rank@, nq, fin),
            turnaround_times@.len() == i,
            waiting_times@.len() == i,
            response_times@.len() == i,
            forall|j: int| 0 <= j < i ==> {
                let p = #[trigger] procs[j];
                &&& turnaround_times@[j] == (p.id, (fin.completion[j] - p.arrival_time) as u64)
                &&& waiting_times@[j] == (p.id, (fin.completion[j] - p.arrival_time - p.burst_time) as u64)
                &&& response_times@[j] == (p.id, (fin.first_run[j]->0 - p.arrival_time) as u64)
            },
        decreases n - i,
    {
        let p = processes[i];
        proof {
            assert(fin.first_run[i as int] is Some);
        }
        let first = match run.first_run[i] {
            Some(t) => t,
            None => 0,
        };
        let tt = run.completion[i] - p.arrival_time;
        let rt = first - p.arrival_time;
        let wt = tt - p.burst_time;
        turnaround_times.push((p.id, tt));
        waiting_times.push((p.id, wt));
        response_times.push((p.id, rt));
        i = i + 1;
    }
    ScheduleResult {
        order: run.order,
        turnaround_times,
        waiting_times,
        response_times,
        total_time: run.time,
    }
}

/// Queue contents by value.
pub open spec fn queues_view(v: Seq<Vec<usize>>) -> Seq<Seq<usize>> {
    v.map_values(|q: Vec<usize>| q@)
}

pub open spec fn u64s(v: Seq<u64>) -> Seq<int> {
    v.map_values(|x: u64| x as int)
}

pub open spec fn usizes(v: Seq<usize>) -> Seq<int> {
    v.map_values(|x: usize| x as int)
}

pub open spec fn opt_u64s(v: Seq<Option<u64>>) -> Seq<Option<int>> {
    v.map_values(|o: Option<u64>| match o {
        Some(x) => Some(x as int),
        None => None,
    })
}

/// The ids of the processes at the given indices.
pub open spec fn ids_of(procs: Seq<Process>, idx: Seq<usize>) -> Seq<usize> {
    idx.map_values(|i: usize| procs[i as int].id)
}

/// The running simulation.
struct FbRun {
    queues: Vec<Vec<usize>>,
    remaining: Vec<u64>,
    first_run: Vec<Option<u64>>,
    completion: Vec<u64>,
    level: Vec<usize>,
    time: u64,
    next: usize,
    visited: Vec<bool>,
    completed: usize,
    order: Vec<usize>,
    order_idx: Ghost<Seq<usize>>,
    done: Ghost<Seq<bool>>,
}

impl FbRun {
    spec fn state(&self) -> FbState {
        FbState {
            queues: queues_view(self.queues@),
            remaining: u64s(self.remaining@),
            first_run: opt_u64s(self.first_run@),
            completion: u64s(self.completion@),
            level: usizes(self.level@),
            time: self.time as int,
            next: self.next as int,
            visited: self.visited@,
            completed: self.completed as int,
            order: self.order_idx@,
            done: self.done@,
        }
    }

    spec fn wf(&self, procs: Seq<Process>, rank: Seq<usize>, nq: int) -> bool {
        &&& fb_inv(procs, rank, nq, self.state())
        &&& self.order@ == ids_of(procs, self.order_idx@)
    }

    fn admit_arrivals(&mut self, procs: &[Process], rank: &Vec<usize>, Ghost(nq): Ghost<int>)
        requires
            old(self).wf(procs@, rank@, nq),
        ensures
            final(self).wf(procs@, rank@, nq),
            final(self).state() == fb_admit(procs@, rank@, old(self).state()),
    {
        let n = procs.len();
        let ghost goal = fb_admit(procs@, rank@, self.state());
        while self.next < n && procs[rank[self.next]].arrival_time <= self.time
            invariant
                n == procs@.len(),
                self.wf(procs@, rank@, nq),
                fb_admit(procs@, rank@, self.state()) == goal,
            decreases n - self.next,
        {
            let ghost s = self.state();
            let ni = rank[self.next];
            if !self.visited[ni] {
                self.queues[0].push(ni);
                self.visited.set(ni, true);
            }
            self.next = self.next + 1;
            proof {
                let s2 = if !s.visited[ni as int] {
                    FbState {
                        queues: s.queues.update(0, s.queues[0].push(ni)),
                        visited: s.visited.update(ni as int, true),
                        ..s
                    }
                } else {
                    s
                };
                assert(self.state().queues =~= s2.queues);
                assert(self.state() == FbState { next: s.next + 1, ..s2 });
                assert forall|q: int, k: int|
                    0 <= q < self.state().queues.len() && 0 <= k < self.state().queues[q].len() implies #[trigger] self.state().queues[q][k] < n by {
                    if q == 0 && !s.visited[ni as int] && k == s.queues[0].len() {
                    } else {
                        assert(self.state().queues[q][k] == s.queues[q][k]);
                    }
                }
            }
        }
    }

    fn step(&mut self, procs: &[Process], rank: &Vec<usize>, nq: usize, quanta: &[u64])
        requires
            old(self).wf(procs@, rank@, nq as int),
            !fb_stopped(procs@, old(self).state()),
            fb_step(procs@, rank@, nq as int, quanta@, old(self).state()).time <= u64::MAX,
            procs@.len() > 0 ==> quanta@.len() > 0,
        ensures
            final(self).wf(procs@, rank@, nq as int),
            final(self).state() == fb_step(procs@, rank@, nq as int, quanta@, old(self).state()),
    {
        let ghost s = self.state();
        proof {
            lemma_step_inv(procs@, rank@, nq as int, quanta@, s);
            lemma_first_active(s.queues, 0);
        }
        let mut q: usize = 0;
        while q < nq && self.queues[q].len() == 0
            invariant
                q <= nq,
                self.state() == s,
                fb_inv(procs@, rank@, nq as int, s),
                forall|p: int| 0 <= p < q ==> #[trigger] s.queues[p].len() == 0,
            decreases nq - q,
        {
            q = q + 1;
        }
        proof {
            lemma_first_active_from(s.queues, q as int);
        }
        if q == nq {
            let ni = rank[self.next];
            let a = procs[ni].arrival_time;
            if a > self.time {
                self.time = a;
            }
            self.queues[0].push(ni);
            self.visited.set(ni, true);
            self.next = self.next + 1;
            proof {
                assert(self.state().queues =~= s.queues.update(0, s.queues[0].push(ni)));
            }
        } else {
            let idx = self.queues[q].remove(0);
            proof {
                assert(self.state().queues =~= s.queues.update(q as int, s.queues[q as int].drop_first()));
            }
            if self.first_run[idx].is_none() {
                self.first_run.set(idx, Some(self.time));
            }
            let last = quanta.len() - 1;
            let qi = if q < last { q } else { last };
            let quantum = quanta[qi];
            let rem = self.remaining[idx];
            let ran = if rem < quantum { rem } else { quantum };
            proof {
                let i = idx as int;
                assert(quantum == quantum_of(quanta@, q as int));
                assert(ran == spec_min(s.remaining[i], quantum_of(quanta@, q as int)));
                let s1 = FbState {
                    queues: s.queues.update(q as int, s.queues[q as int].drop_first()),
                    first_run: if s.first_run[i] is None {
                        s.first_run.update(i, Some(s.time))
                    } else {
                        s.first_run
                    },
                    remaining: s.remaining.update(i, s.remaining[i] - ran),
                    time: s.time + ran,
                    order: s.order.push(idx),
                    ..s
                };
                lemma_admit_inv_time(procs@, rank@, s1);
                assert(fb_step(procs@, rank@, nq as int, quanta@, s).time == s.time + ran);
            }
            self.remaining.set(idx, rem - ran);
            self.time = self.time + ran;
            self.order.push(procs[idx].id);
            self.order_idx = Ghost(self.order_idx@.push(idx));
            proof {
                let i = idx as int;
                let s1 = FbState {
                    queues: s.queues.update(q as int, s.queues[q as int].drop_first()),
                    first_run: if s.first_run[i] is None {
                        s.first_run.update(i, Some(s.time))
                    } else {
                        s.first_run
                    },
                    remaining: s.remaining.update(i, s.remaining[i] - ran),
                    time: s.time + ran,
                    order: s.order.push(idx),
                    ..s
                };
                assert(self.state().first_run =~= s1.first_run);
                assert(self.state().remaining =~= s1.remaining);
                assert(self.state().queues =~= s1.queues);
                assert(self.order@ =~= ids_of(procs@, self.order_idx@));
                assert(self.state() == s1);
                assert forall|p: int, k: int|
                    0 <= p < s1.queues.len() && 0 <= k < s1.queues[p].len() implies #[trigger] s1.queues[p][k] < procs@.len() by {
                    if p == q {
                        assert(s1.queues[p][k] == s.queues[p][k + 1]);
                    } else {
                        assert(s1.queues[p][k] == s.queues[p][k]);
                    }
                }
            }
            self.admit_arrivals(procs, rank, Ghost(nq as int));
            let ghost s2 = self.state();
            proof {
                assert(s2.completed == s.completed);
            }
            if self.remaining[idx] > 0 {
                let up = self.level[idx] + 1;
                let nl = if up < nq - 1 { up } else { nq - 1 };
                self.level.set(idx, nl);
                self.queues[nl].push(idx);
                proof {
                    assert(self.state().level =~= s2.level.update(idx as int, nl as int));
                    assert(self.state().queues =~= s2.queues.update(nl as int, s2.queues[nl as int].push(idx)));
                }
            } else {
                self.completion.set(idx, self.time);
                self.completed = self.completed + 1;
                self.done = Ghost(self.done@.update(idx as int, true));
                proof {
                    assert(self.state().completion =~= s2.completion.update(idx as int, s2.time));
                }
            }
        }
    }
}

proof fn lemma_admit_inv_time(procs: Seq<Process>, rank: Seq<usize>, s: FbState)
    ensures
        fb_admit(procs, rank, s).time == s.time,
        fb_admit(procs, rank, s).completed == s.completed,
    decreases procs.len() - s.next,
{
    if 0 <= s.next < procs.len() && procs[rank[s.next] as int].arrival_time <= s.time {
        let ni = rank[s.next];
        let s2 = if !s.visited[ni as int] {
            FbState {
                queues: s.queues.update(0, s.queues[0].push(ni)),
                visited: s.visited.update(ni as int, true),
                ..s
            }
        } else {
            s
        };
        lemma_admit_inv_time(procs, rank, FbState { next: s.next + 1, ..s2 });
    }
}

proof fn lemma_first_active_from(queues: Seq<Seq<usize>>, q: int)
    requires
        0 <= q <= queues.len(),
        forall|p: int| 0 <= p < q ==> #[trigger] queues[p].len() == 0,
    ensures
        q < queues.len() && queues[q].len() > 0 ==> first_active(queues, 0) == q,
        q == queues.len() ==> first_active(queues, 0) == -1,
    decreases q,
{
    if q > 0 {
        lemma_first_active_from_step(queues, 0, q);
    }
}

proof fn lemma_first_active_from_step(queues: Seq<Seq<usize>>, a: int, q: int)
    requires
        0 <= a <= q <= queues.len(),
        forall|p: int| a <= p < q ==> #[trigger] queues[p].len() == 0,
    ensures
        first_active(queues, a) == first_active(queues, q),
    decreases q - a,
{
    if a < q {
        lemma_first_active_from_step(queues, a + 1, q);
    }
}

} // verus!
