use vstd::prelude::*;
use vstd::relations::sorted_by;
use crate::scheduling::{Process, arrival_order, arrival_le, index_seq, lemma_arrival_le_total, lemma_arrival_order_perm, later};
use crate::feedback::{FbState, fb_admit, fb_inv, fb_step, fb_run, fb_stopped, fb_start, fb_final, fb_fuel, fb_runnable, first_active, quantum_of, spec_min, lemma_step_inv, lemma_first_active, lemma_admit_inv};
use crate::feedback_laws::{fb_good, rank_perm, fb_blank, lemma_step_good, lemma_init_good};

verus! {

/// Processes are admitted in order of arrival.
pub open spec fn arrival_sorted(procs: Seq<Process>, rank: Seq<usize>) -> bool {
    forall|k1: int, k2: int|
        0 <= k1 <= k2 < procs.len() ==> procs[#[trigger] rank[k1] as int].arrival_time <= procs[#[trigger] rank[k2] as int].arrival_time
}

/// Round Robin bookkeeping: the queue holds distinct admitted, unfinished processes; the
/// next process to admit has not arrived before now; a queued process that has not run
/// yet will get the CPU within `q·(n−1)` of its arrival even if each process ahead of it
/// uses a full quantum; and every process that has run got the CPU within that bound.
pub open spec fn rr_inv(procs: Seq<Process>, rank: Seq<usize>, q: int, s: FbState) -> bool {
    let n = procs.len();
    let queue = s.queues[0];
    &&& queue.no_duplicates()
    &&& forall|k: int| 0 <= k < queue.len() ==> s.visited[#[trigger] queue[k] as int] && !s.done[queue[k] as int]
    &&& s.next < n ==> procs[rank[s.next] as int].arrival_time >= s.time
    &&& forall|k: int|
        0 <= k < queue.len() && s.first_run[#[trigger] queue[k] as int] is None
            ==> s.time + q * k <= procs[queue[k] as int].arrival_time + q * (n - 1)
    &&& forall|i: int|
        0 <= i < n && #[trigger] s.first_run[i] is Some ==> s.first_run[i]->0 <= procs[i].arrival_time + q * (n - 1)
}

proof fn lemma_distinct_len(n: int, s: Seq<usize>)
    requires
        0 <= n <= usize::MAX,
        s.no_duplicates(),
        forall|k: int| 0 <= k < s.len() ==> #[trigger] s[k] < n,
    ensures
        s.len() <= n,
{
    s.unique_seq_to_set();
    let full = Set::new(|v: usize| v < n);
    crate::util::lemma_usize_range_finite_len(n);
    assert(s.to_set().subset_of(full)) by {
        assert forall|v: usize| #[trigger] s.to_set().contains(v) implies full.contains(v) by {
            let i = choose|i: int| 0 <= i < s.len() && s[i] == v;
        }
    }
    vstd::set_lib::lemma_len_subset(s.to_set(), full);
}

proof fn lemma_push_distinct(s: Seq<usize>, x: usize)
    requires
        s.no_duplicates(),
        !s.contains(x),
    ensures
        s.push(x).no_duplicates(),
{
    assert forall|a: int, b: int| 0 <= a < b < s.push(x).len() implies s.push(x)[a] != s.push(x)[b] by {
        if b == s.len() {
            assert(s.contains(s[a]));
        }
    }
}

proof fn lemma_arrival_sorted(procs: Seq<Process>)
    requires
        procs.len() <= usize::MAX,
    ensures
        arrival_sorted(procs, arrival_order(procs)),
{
    let rank = arrival_order(procs);
    lemma_arrival_order_perm(procs);
    lemma_arrival_le_total(procs);
    index_seq(procs.len()).lemma_sort_by_ensures(arrival_le(procs));
    assert(sorted_by(rank, arrival_le(procs)));
    assert forall|k1: int, k2: int| 0 <= k1 <= k2 < procs.len() implies procs[#[trigger] rank[k1] as int].arrival_time <= procs[#[trigger] rank[k2] as int].arrival_time by {
        if k1 < k2 {
            assert((arrival_le(procs))(rank[k1], rank[k2]));
        }
    }
}

/// The queue part of the bookkeeping, for a queue that a process `p` (when `p >= 0`) has
/// just left to run; `slack` is 1 in that case and 0 otherwise.
pub open spec fn rr_queue_ok(procs: Seq<Process>, q: int, s: FbState, p: int, slack: int) -> bool {
    let n = procs.len();
    let queue = s.queues[0];
    &&& queue.no_duplicates()
    &&& forall|k: int| 0 <= k < queue.len() ==> s.visited[#[trigger] queue[k] as int] && !s.done[queue[k] as int]
    &&& forall|k: int|
        0 <= k < queue.len() && s.first_run[#[trigger] queue[k] as int] is None
            ==> s.time + q * k <= procs[queue[k] as int].arrival_time + q * (n - 1)
    &&& p >= 0 ==> p < n && s.visited[p] && !s.done[p] && !queue.contains(p as usize)
    &&& slack == if p >= 0 { 1int } else { 0int }
}

/// Admitting the processes that have arrived keeps the queue bookkeeping: each newcomer
/// arrived no earlier than `lo`, the clock is at most one quantum past `lo` when a process
/// has just run (none otherwise), and the queue ahead of a newcomer holds at most
/// `n − 1 − slack` processes.
proof fn lemma_rr_admit(procs: Seq<Process>, rank: Seq<usize>, q: int, s: FbState, p: int, slack: int, lo: int)
    requires
        fb_inv(procs, rank, 1, s),
        rank_perm(procs, rank),
        arrival_sorted(procs, rank),
        q >= 1,
        forall|k: int| 0 <= k < procs.len() ==> s.visited[#[trigger] rank[k] as int] == (k < s.next),
        forall|i: int| 0 <= i < procs.len() && #[trigger] s.done[i] ==> s.visited[i],
        rr_queue_ok(procs, q, s, p, slack),
        s.next < procs.len() ==> procs[rank[s.next] as int].arrival_time >= lo,
        s.time <= lo + q * slack,
    ensures
        ({
            let t = fb_admit(procs, rank, s);
            &&& rr_queue_ok(procs, q, t, p, slack)
            &&& t.time == s.time
            &&& t.first_run == s.first_run
            &&& t.done == s.done
            &&& t.remaining == s.remaining
            &&& t.next < procs.len() ==> procs[rank[t.next] as int].arrival_time > t.time
            &&& forall|i: int| 0 <= i < procs.len() && s.visited[i] ==> #[trigger] t.visited[i]
        }),
    decreases procs.len() - s.next,
{
    let n = procs.len();
    if 0 <= s.next < n && procs[rank[s.next] as int].arrival_time <= s.time {
        let ni = rank[s.next];
        let queue = s.queues[0];
        assert(ni < n);
        assert(!s.visited[ni as int]);
        assert(!queue.contains(ni)) by {
            if queue.contains(ni) {
                let k = choose|k: int| 0 <= k < queue.len() && queue[k] == ni;
                assert(s.visited[queue[k] as int]);
            }
        }
        let s2 = FbState { queues: s.queues.update(0, queue.push(ni)), visited: s.visited.update(ni as int, true), ..s };
        let s3 = FbState { next: s.next + 1, ..s2 };
        assert(fb_admit(procs, rank, s) == fb_admit(procs, rank, s3));
        let k = queue.len() as int;
        assert(k <= n - 1 - slack) by {
            lemma_push_distinct(queue, ni);
            assert forall|j: int| 0 <= j < queue.push(ni).len() implies #[trigger] queue.push(ni)[j] < n by {
                if j < k {
                    assert(queue[j] < n);
                }
            }
            if p >= 0 {
                assert(!queue.push(ni).contains(p as usize)) by {
                    if queue.push(ni).contains(p as usize) {
                        let j = choose|j: int| 0 <= j < queue.push(ni).len() && queue.push(ni)[j] == p as usize;
                        if j < k {
                            assert(queue.contains(p as usize));
                        }
                    }
                }
                lemma_push_distinct(queue.push(ni), p as usize);
                lemma_distinct_len(n as int, queue.push(ni).push(p as usize));
            } else {
                lemma_distinct_len(n as int, queue.push(ni));
            }
        }
        assert(procs[ni as int].arrival_time >= lo);
        assert(q * k <= q * (n - 1 - slack)) by (nonlinear_arith)
            requires
                q >= 1,
                k <= n - 1 - slack,
        ;
        assert(q * (n - 1 - slack) + q * slack == q * (n - 1)) by (nonlinear_arith);
        assert(fb_inv(procs, rank, 1, s3)) by {
            assert forall|qq: int, kk: int| 0 <= qq < s3.queues.len() && 0 <= kk < s3.queues[qq].len() implies #[trigger] s3.queues[qq][kk] < n by {
                if kk < k {
                    assert(s3.queues[qq][kk] == queue[kk]);
                }
            }
        }
        let q3 = s3.queues[0];
        assert(q3 == queue.push(ni));
        lemma_push_distinct(queue, ni);
        assert(rr_queue_ok(procs, q, s3, p, slack)) by {
            assert forall|j: int| 0 <= j < q3.len() implies s3.visited[#[trigger] q3[j] as int] && !s3.done[q3[j] as int] by {
                if j < k {
                    assert(q3[j] == queue[j]);
                }
            }
            assert forall|j: int|
                0 <= j < q3.len() && s3.first_run[#[trigger] q3[j] as int] is None
                    implies s3.time + q * j <= procs[q3[j] as int].arrival_time + q * (n - 1) by {
                if j < k {
                    assert(q3[j] == queue[j]);
                }
            }
            if p >= 0 {
                assert(!q3.contains(p as usize)) by {
                    if q3.contains(p as usize) {
                        let j = choose|j: int| 0 <= j < q3.len() && q3[j] == p as usize;
                        if j < k {
                            assert(queue.contains(p as usize));
                        }
                    }
                }
            }
        }
        assert forall|kk: int| 0 <= kk < n implies s3.visited[#[trigger] rank[kk] as int] == (kk < s3.next) by {
            if kk != s.next {
                assert(rank[kk] != rank[s.next]);
            }
        }
        if s3.next < n {
            assert(procs[rank[s.next] as int].arrival_time <= procs[rank[s3.next] as int].arrival_time);
        }
        lemma_rr_admit(procs, rank, q, s3, p, slack, lo);
    }
}

proof fn lemma_rr_step(procs: Seq<Process>, rank: Seq<usize>, qu: u64, s: FbState)
    requires
        fb_inv(procs, rank, 1, s),
        fb_good(procs, rank, s),
        rank_perm(procs, rank),
        arrival_sorted(procs, rank),
        qu >= 1,
        rr_inv(procs, rank, qu as int, s),
        !fb_stopped(procs, s),
    ensures
        rr_inv(procs, rank, qu as int, fb_step(procs, rank, 1, seq![qu], s)),
{
    let n = procs.len();
    let q = qu as int;
    let quanta = seq![qu];
    let queue = s.queues[0];
    let t = fb_step(procs, rank, 1, quanta, s);
    lemma_first_active(s.queues, 0);
    assert(q * (n - 1) >= 0) by (nonlinear_arith)
        requires
            q >= 1,
            n >= 1,
    ;
    if first_active(s.queues, 0) < 0 {
        assert(queue.len() == 0);
        let ni = rank[s.next];
        assert(s.next < n);
        assert(ni < n);
        assert(!s.visited[ni as int]);
        assert(t.time == procs[ni as int].arrival_time);
        assert(t.queues[0] =~= seq![ni]);
        assert(t.queues[0].no_duplicates());
        if t.next < n {
            assert(procs[rank[s.next] as int].arrival_time <= procs[rank[t.next] as int].arrival_time);
        }
        assert forall|k: int|
            0 <= k < t.queues[0].len() && t.first_run[#[trigger] t.queues[0][k] as int] is None
                implies t.time + q * k <= procs[t.queues[0][k] as int].arrival_time + q * (n - 1) by {
            assert(k == 0);
        }
    } else {
        assert(first_active(s.queues, 0) == 0);
        let idx = queue[0];
        let i = idx as int;
        assert(idx < n);
        let ran = spec_min(s.remaining[i], quantum_of(quanta, 0));
        assert(quantum_of(quanta, 0) == q);
        assert(0 <= ran <= q);
        let s1 = FbState {
            queues: s.queues.update(0, queue.drop_first()),
            first_run: if s.first_run[i] is None {
                s.first_run.update(i, Some(s.time))
            } else {
                s.first_run
            },
            remaining: s.remaining.update(i, s.remaining[i] - ran),
            time: s.time + ran,
            order: s.order.push(idx),
            ..s
        };
        let q1 = s1.queues[0];
        assert(q1 == queue.drop_first());
        assert(!q1.contains(idx)) by {
            if q1.contains(idx) {
                let j = choose|j: int| 0 <= j < q1.len() && q1[j] == idx;
                assert(queue[j + 1] == queue[0]);
            }
        }
        assert(fb_inv(procs, rank, 1, s1)) by {
            assert forall|qq: int, kk: int| 0 <= qq < s1.queues.len() && 0 <= kk < s1.queues[qq].len() implies #[trigger] s1.queues[qq][kk] < n by {
                assert(s1.queues[qq][kk] == queue[kk + 1]);
            }
            assert forall|kk: int| 0 <= kk < s1.order.len() implies #[trigger] s1.order[kk] < n by {
                if kk < s.order.len() {
                    assert(s1.order[kk] == s.order[kk]);
                }
            }
        }
        assert(s.visited[i] && !s.done[i]);
        if s.first_run[i] is None {
            assert(s.time + q * 0 <= procs[i].arrival_time + q * (n - 1));
        }
        assert(rr_queue_ok(procs, q, s1, i, 1)) by {
            assert(q1.no_duplicates()) by {
                assert forall|a: int, b: int| 0 <= a < b < q1.len() implies q1[a] != q1[b] by {
                    assert(q1[a] == queue[a + 1] && q1[b] == queue[b + 1]);
                }
            }
            assert forall|j: int| 0 <= j < q1.len() implies s1.visited[#[trigger] q1[j] as int] && !s1.done[q1[j] as int] by {
                assert(q1[j] == queue[j + 1]);
            }
            assert forall|j: int|
                0 <= j < q1.len() && s1.first_run[#[trigger] q1[j] as int] is None
                    implies s1.time + q * j <= procs[q1[j] as int].arrival_time + q * (n - 1) by {
                assert(q1[j] == queue[j + 1]);
                assert(q1[j] != idx);
                assert(s.first_run[queue[j + 1] as int] is None);
                assert(s.time + q * (j + 1) <= procs[queue[j + 1] as int].arrival_time + q * (n - 1));
                assert(q * (j + 1) == q * j + q) by (nonlinear_arith);
            }
        }
        assert forall|k: int| 0 <= k < n implies s1.visited[#[trigger] rank[k] as int] == (k < s1.next) by {}
        lemma_rr_admit(procs, rank, q, s1, i, 1, s.time);
        let s2 = fb_admit(procs, rank, s1);
        let q2 = s2.queues[0];
        assert forall|j: int| 0 <= j < n && #[trigger] t.first_run[j] is Some implies t.first_run[j]->0 <= procs[j].arrival_time + q * (n - 1) by {
            assert(t.first_run == s2.first_run);
        }
        lemma_admit_inv(procs, rank, 1, s1);
        if s2.remaining[i] > 0 {
            let nl = spec_min(s2.level[i] + 1, 0);
            assert(nl == 0);
            assert(t.queues[0] == q2.push(idx));
            lemma_push_distinct(q2, idx);
            assert forall|j: int| 0 <= j < t.queues[0].len() implies t.visited[#[trigger] t.queues[0][j] as int] && !t.done[t.queues[0][j] as int] by {
                if j < q2.len() {
                    assert(t.queues[0][j] == q2[j]);
                }
            }
            assert forall|j: int|
                0 <= j < t.queues[0].len() && t.first_run[#[trigger] t.queues[0][j] as int] is None
                    implies t.time + q * j <= procs[t.queues[0][j] as int].arrival_time + q * (n - 1) by {
                if j < q2.len() {
                    assert(t.queues[0][j] == q2[j]);
                } else {
                    assert(s2.first_run[i] is Some);
                }
            }
        } else {
            assert(t.queues[0] == q2);
            assert forall|j: int| 0 <= j < q2.len() implies t.visited[#[trigger] q2[j] as int] && !t.done[q2[j] as int] by {
                assert(q2[j] != idx);
            }
        }
    }
}

proof fn lemma_rr_run(procs: Seq<Process>, rank: Seq<usize>, qu: u64, s: FbState, k: nat)
    requires
        fb_inv(procs, rank, 1, s),
        fb_good(procs, rank, s),
        rank_perm(procs, rank),
        arrival_sorted(procs, rank),
        qu >= 1,
        rr_inv(procs, rank, qu as int, s),
    ensures
        rr_inv(procs, rank, qu as int, fb_run(procs, rank, 1, seq![qu], s, k)),
    decreases k,
{
    if k > 0 && !fb_stopped(procs, s) {
        lemma_rr_step(procs, rank, qu, s);
        lemma_step_inv(procs, rank, 1, seq![qu], s);
        lemma_step_good(procs, rank, 1, seq![qu], s);
        lemma_rr_run(procs, rank, qu, fb_step(procs, rank, 1, seq![qu], s), (k - 1) as nat);
    }
}

/// Round Robin gives every process the CPU within `quantum · (n − 1)` of its arrival:
/// before its first turn each other process runs at most one quantum.
pub proof fn lemma_rr_response_bound(procs: Seq<Process>, quantum: u64)
    requires
        procs.len() <= usize::MAX,
        quantum >= 1,
        fb_runnable(procs, 1, seq![quantum]),
    ensures
        forall|i: int|
            0 <= i < procs.len() ==> #[trigger] fb_final(procs, 1, seq![quantum]).first_run[i]->0 - procs[i].arrival_time
                <= quantum * (procs.len() - 1),
{
    let n = procs.len();
    let rank = arrival_order(procs);
    let q = quantum as int;
    crate::feedback_laws::lemma_halts_well_ended(procs, 1, seq![quantum]);
    if n > 0 {
        lemma_init_good(procs, 1);
        lemma_arrival_sorted(procs);
        let s0 = fb_blank(procs, 1);
        assert(fb_start(procs, 1) == fb_admit(procs, rank, s0));
        assert(fb_inv(procs, rank, 1, s0));
        lemma_arrival_order_perm(procs);
        assert forall|k: int| 0 <= k < n implies s0.visited[#[trigger] rank[k] as int] == (k < s0.next) by {}
        assert(s0.queues[0] =~= Seq::<usize>::empty());
        assert(rr_queue_ok(procs, q, s0, -1, 0));
        lemma_rr_admit(procs, rank, q, s0, -1, 0, 0);
        let st = fb_start(procs, 1);
        assert(rr_inv(procs, rank, q, st)) by {
            assert forall|i: int| 0 <= i < n && #[trigger] st.first_run[i] is Some implies st.first_run[i]->0 <= procs[i].arrival_time + q * (n - 1) by {
                assert(s0.first_run[i] is None);
            }
        }
        let f = fb_fuel(procs, 1, seq![quantum]);
        lemma_rr_run(procs, rank, quantum, st, f);
        let fin = fb_final(procs, 1, seq![quantum]);
        assert forall|i: int| 0 <= i < n implies #[trigger] fin.first_run[i]->0 - procs[i].arrival_time <= quantum * (n - 1) by {
            assert(fin.first_run[i] is Some);
        }
    }
}

} // verus!
