use vstd::prelude::*;
use crate::scheduling::{Process, later, arrival_order, ranked, lemma_arrival_order_perm};
use crate::feedback::{fb_well_ended, FbState, fb_admit, fb_inv, fb_step, fb_run, fb_stopped, fb_finished, fb_init, fb_start, fb_final, fb_fuel, fb_halts, fb_runnable, first_active, quantum_of, spec_min, lemma_admit_inv, lemma_step_inv, lemma_first_active};
use crate::util::{count_false, lemma_count_false_update, lemma_count_false_exists, lemma_count_false_all, sum, lemma_sum_update, lemma_sum_nonneg};

verus! {

/// How often `i` is queued, over all queues.
pub open spec fn qcount(qs: Seq<Seq<usize>>, i: usize) -> int
    decreases qs.len(),
{
    if qs.len() == 0 {
        0
    } else {
        qcount(qs.drop_last(), i) + qs.last().to_multiset().count(i)
    }
}

proof fn lemma_qcount_update(qs: Seq<Seq<usize>>, q: int, x: Seq<usize>, i: usize)
    requires
        0 <= q < qs.len(),
    ensures
        qcount(qs.update(q, x), i) == qcount(qs, i) - qs[q].to_multiset().count(i) + x.to_multiset().count(i),
    decreases qs.len(),
{
    if q < qs.len() - 1 {
        assert(qs.update(q, x).drop_last() =~= qs.drop_last().update(q, x));
        lemma_qcount_update(qs.drop_last(), q, x, i);
    } else {
        assert(qs.update(q, x).drop_last() =~= qs.drop_last());
    }
}

proof fn lemma_qcount_nonneg(qs: Seq<Seq<usize>>, i: usize)
    ensures
        qcount(qs, i) >= 0,
    decreases qs.len(),
{
    if qs.len() > 0 {
        lemma_qcount_nonneg(qs.drop_last(), i);
    }
}

proof fn lemma_qcount_empty(qs: Seq<Seq<usize>>, i: usize)
    requires
        forall|q: int| 0 <= q < qs.len() ==> #[trigger] qs[q].len() == 0,
    ensures
        qcount(qs, i) == 0,
    decreases qs.len(),
{
    if qs.len() > 0 {
        broadcast use vstd::seq_lib::group_to_multiset_ensures;
        assert(qs.last().len() == 0);
        assert(qs.last().to_multiset().len() == 0);
        lemma_qcount_empty(qs.drop_last(), i);
    }
}

proof fn lemma_push_count(s: Seq<usize>, x: usize, i: usize)
    ensures
        s.push(x).to_multiset().count(i) == s.to_multiset().count(i) + if x == i { 1int } else { 0int },
{
    broadcast use vstd::seq_lib::group_to_multiset_ensures;
    broadcast use vstd::multiset::group_multiset_axioms;
}

proof fn lemma_drop_first_count(s: Seq<usize>, i: usize)
    requires
        s.len() > 0,
    ensures
        s.drop_first().to_multiset().count(i) == s.to_multiset().count(i) - if s[0] == i { 1int } else { 0int },
        s.to_multiset().count(s[0]) >= 1,
{
    broadcast use vstd::seq_lib::group_to_multiset_ensures;
    broadcast use vstd::multiset::group_multiset_axioms;
    assert(s.remove(0) =~= s.drop_first());
    assert(s.contains(s[0]));
}

/// Every used quantum is positive.
pub open spec fn positive_quanta(nq: int, quanta: Seq<u64>) -> bool {
    forall|q: int| 0 <= q < nq ==> #[trigger] quantum_of(quanta, q) > 0
}

/// The latest arrival time.
pub open spec fn max_arrival(procs: Seq<Process>) -> int
    decreases procs.len(),
{
    if procs.len() == 0 {
        0
    } else {
        later(max_arrival(procs.drop_last()), procs.last().arrival_time as int)
    }
}

pub proof fn lemma_max_arrival(procs: Seq<Process>)
    ensures
        forall|i: int| 0 <= i < procs.len() ==> #[trigger] procs[i].arrival_time <= max_arrival(procs),
        max_arrival(procs) >= 0,
    decreases procs.len(),
{
    if procs.len() > 0 {
        lemma_max_arrival(procs.drop_last());
        assert forall|i: int| 0 <= i < procs.len() implies #[trigger] procs[i].arrival_time <= max_arrival(procs) by {
            if i < procs.len() - 1 {
                assert(procs[i] == procs.drop_last()[i]);
            }
        }
    }
}

/// The sum of all burst times.
pub open spec fn total_burst(procs: Seq<Process>) -> int {
    sum(Seq::new(procs.len(), |i: int| procs[i].burst_time as int))
}

/// Bookkeeping that every reachable state satisfies: each admitted, unfinished
/// process is queued exactly once; processes are admitted in arrival order; the
/// clock never runs ahead of the work done and the arrivals; and every process ran
/// between its arrival and its completion.
pub open spec fn fb_good(procs: Seq<Process>, rank: Seq<usize>, s: FbState) -> bool {
    let n = procs.len();
    &&& forall|i: int| 0 <= i < n ==> #[trigger] qcount(s.queues, i as usize) == if s.visited[i] && !s.done[i] { 1int } else { 0int }
    &&& forall|k: int| 0 <= k < n ==> s.visited[#[trigger] rank[k] as int] == (k < s.next)
    &&& forall|i: int| 0 <= i < n && #[trigger] s.done[i] ==> s.visited[i]
    &&& count_false(s.done) == n - s.completed
    &&& forall|i: int| 0 <= i < n && #[trigger] s.visited[i] ==> procs[i].arrival_time <= s.time
    &&& forall|i: int| 0 <= i < n ==> match #[trigger] s.first_run[i] {
        Some(f) => procs[i].arrival_time <= f && f + (procs[i].burst_time - s.remaining[i]) <= s.time && s.remaining[i] <= procs[i].burst_time,
        None => s.remaining[i] == procs[i].burst_time,
    }
    &&& forall|i: int| 0 <= i < n && #[trigger] s.done[i] ==> s.first_run[i] is Some && s.remaining[i] == 0
        && s.completion[i] >= s.first_run[i]->0 + procs[i].burst_time
    &&& s.time <= max_arrival(procs) + total_burst(procs) - sum(s.remaining)
}

/// Facts about the arrival order that the bookkeeping rests on.
pub open spec fn rank_perm(procs: Seq<Process>, rank: Seq<usize>) -> bool {
    &&& procs.len() <= usize::MAX
    &&& rank.len() == procs.len()
    &&& forall|k1: int, k2: int|
        0 <= k1 < procs.len() && 0 <= k2 < procs.len() && k1 != k2 ==> #[trigger] rank[k1] != #[trigger] rank[k2]
    &&& forall|i: int| 0 <= i < procs.len() ==> #[trigger] ranked(rank, i)
}

proof fn lemma_admit_good(procs: Seq<Process>, rank: Seq<usize>, nq: int, s: FbState)
    requires
        fb_inv(procs, rank, nq, s),
        fb_good(procs, rank, s),
        rank_perm(procs, rank),
    ensures
        fb_good(procs, rank, fb_admit(procs, rank, s)),
    decreases procs.len() - s.next,
{
    let n = procs.len();
    if 0 <= s.next < n && procs[rank[s.next] as int].arrival_time <= s.time {
        let ni = rank[s.next];
        assert(!s.visited[ni as int]);
        let s2 = FbState {
            queues: s.queues.update(0, s.queues[0].push(ni)),
            visited: s.visited.update(ni as int, true),
            ..s
        };
        let s3 = FbState { next: s.next + 1, ..s2 };
        assert forall|i: int| 0 <= i < n implies #[trigger] qcount(s3.queues, i as usize) == if s3.visited[i] && !s3.done[i] { 1int } else { 0int } by {
            lemma_qcount_update(s.queues, 0, s.queues[0].push(ni), i as usize);
            lemma_push_count(s.queues[0], ni, i as usize);
            assert(qcount(s.queues, i as usize) == if s.visited[i] && !s.done[i] { 1int } else { 0int });
        }
        assert forall|k: int| 0 <= k < n implies s3.visited[#[trigger] rank[k] as int] == (k < s3.next) by {
            if k != s.next {
                assert(rank[k] != rank[s.next]);
            }
        }
        lemma_admit_inv(procs, rank, nq, s3);
        lemma_admit_inv(procs, rank, nq, s);
        assert(fb_inv(procs, rank, nq, s3)) by {
            assert forall|q: int, k: int|
                0 <= q < s3.queues.len() && 0 <= k < s3.queues[q].len() implies #[trigger] s3.queues[q][k] < procs.len() by {
                if q == 0 && k == s.queues[0].len() {
                } else {
                    assert(s3.queues[q][k] == s.queues[q][k]);
                }
            }
        }
        lemma_admit_good(procs, rank, nq, s3);
    }
}

/// What admitting arrivals changes: exactly the newly admitted processes become
/// visited and queued once more.
proof fn lemma_admit_frame(procs: Seq<Process>, rank: Seq<usize>, nq: int, s: FbState)
    requires
        fb_inv(procs, rank, nq, s),
        procs.len() <= usize::MAX,
    ensures
        ({
            let a = fb_admit(procs, rank, s);
            &&& forall|i: int| 0 <= i < procs.len() ==> #[trigger] qcount(a.queues, i as usize) == qcount(s.queues, i as usize)
                + if a.visited[i] && !s.visited[i] { 1int } else { 0int }
            &&& forall|i: int| 0 <= i < procs.len() && s.visited[i] ==> #[trigger] a.visited[i]
            &&& forall|i: int| 0 <= i < procs.len() && #[trigger] a.visited[i] && !s.visited[i] ==> procs[i].arrival_time <= s.time
            &&& a.visited.len() == s.visited.len()
            &&& a.queues.len() == s.queues.len()
        }),
    decreases procs.len() - s.next,
{
    let n = procs.len();
    if 0 <= s.next < n && procs[rank[s.next] as int].arrival_time <= s.time {
        let ni = rank[s.next];
        let s2 = if !s.visited[ni as int] {
            FbState {
                queues: s.queues.update(0, s.queues[0].push(ni)),
                visited: s.visited.update(ni as int, true),
                ..s
            }
        } else {
            s
        };
        let s3 = FbState { next: s.next + 1, ..s2 };
        assert(fb_inv(procs, rank, nq, s3)) by {
            assert forall|q: int, k: int|
                0 <= q < s3.queues.len() && 0 <= k < s3.queues[q].len() implies #[trigger] s3.queues[q][k] < procs.len() by {
                if q == 0 && !s.visited[ni as int] && k == s.queues[0].len() {
                } else {
                    assert(s3.queues[q][k] == s.queues[q][k]);
                }
            }
        }
        lemma_admit_frame(procs, rank, nq, s3);
        let a = fb_admit(procs, rank, s);
        assert(a == fb_admit(procs, rank, s3));
        assert forall|i: int| 0 <= i < n implies #[trigger] qcount(a.queues, i as usize) == qcount(s.queues, i as usize)
            + if a.visited[i] && !s.visited[i] { 1int } else { 0int } by {
            if !s.visited[ni as int] {
                lemma_qcount_update(s.queues, 0, s.queues[0].push(ni), i as usize);
                lemma_push_count(s.queues[0], ni, i as usize);
            }
            assert(qcount(a.queues, i as usize) == qcount(s3.queues, i as usize) + if a.visited[i] && !s3.visited[i] { 1int } else { 0int });
        }
        assert forall|i: int| 0 <= i < n && #[trigger] a.visited[i] && !s.visited[i] implies procs[i].arrival_time <= s.time by {
            if !s3.visited[i] {
            } else {
                assert(i == ni);
            }
        }
        assert forall|i: int| 0 <= i < n && s.visited[i] implies #[trigger] a.visited[i] by {
            assert(s3.visited[i]);
        }
    }
}

pub(crate) proof fn lemma_sum_le_pointwise(a: Seq<int>, b: Seq<int>)
    requires
        a.len() == b.len(),
        forall|i: int| 0 <= i < a.len() ==> a[i] <= b[i],
    ensures
        sum(a) <= sum(b),
    decreases a.len(),
{
    if a.len() > 0 {
        lemma_sum_le_pointwise(a.drop_last(), b.drop_last());
    }
}

proof fn lemma_remaining_le_total(procs: Seq<Process>, rank: Seq<usize>, nq: int, s: FbState)
    requires
        fb_inv(procs, rank, nq, s),
        fb_good(procs, rank, s),
    ensures
        sum(s.remaining) <= total_burst(procs),
        max_arrival(procs) >= 0,
{
    let b = Seq::new(procs.len(), |i: int| procs[i].burst_time as int);
    assert forall|i: int| 0 <= i < s.remaining.len() implies s.remaining[i] <= b[i] by {
        match s.first_run[i] {
            Some(f) => {},
            None => {},
        }
    }
    lemma_sum_le_pointwise(s.remaining, b);
    lemma_max_arrival(procs);
}

pub(crate) proof fn lemma_step_good(procs: Seq<Process>, rank: Seq<usize>, nq: int, quanta: Seq<u64>, s: FbState)
    requires
        fb_inv(procs, rank, nq, s),
        fb_good(procs, rank, s),
        rank_perm(procs, rank),
        !fb_stopped(procs, s),
    ensures
        fb_good(procs, rank, fb_step(procs, rank, nq, quanta, s)),
{
    let n = procs.len();
    let q = first_active(s.queues, 0);
    lemma_first_active(s.queues, 0);
    lemma_remaining_le_total(procs, rank, nq, s);
    lemma_max_arrival(procs);
    let t = fb_step(procs, rank, nq, quanta, s);
    if q < 0 {
        let ni = rank[s.next];
        assert(!s.visited[ni as int]);
        assert forall|i: int| 0 <= i < n implies #[trigger] qcount(t.queues, i as usize) == if t.visited[i] && !t.done[i] { 1int } else { 0int } by {
            lemma_qcount_update(s.queues, 0, s.queues[0].push(ni), i as usize);
            lemma_push_count(s.queues[0], ni, i as usize);
            assert(qcount(s.queues, i as usize) == if s.visited[i] && !s.done[i] { 1int } else { 0int });
        }
        assert forall|k: int| 0 <= k < n implies t.visited[#[trigger] rank[k] as int] == (k < t.next) by {
            if k != s.next {
                assert(rank[k] != rank[s.next]);
            }
        }
        assert forall|i: int| 0 <= i < n && #[trigger] t.visited[i] implies procs[i].arrival_time <= t.time by {
            if i != ni {
                assert(s.visited[i]);
            }
        }
        assert forall|i: int| 0 <= i < n implies match #[trigger] t.first_run[i] {
            Some(f) => procs[i].arrival_time <= f && f + (procs[i].burst_time - t.remaining[i]) <= t.time && t.remaining[i] <= procs[i].burst_time,
            None => t.remaining[i] == procs[i].burst_time,
        } by {
            assert(t.first_run[i] == s.first_run[i]);
            match s.first_run[i] {
                Some(f) => {},
                None => {},
            }
        }
        assert forall|i: int| 0 <= i < n && #[trigger] t.done[i] implies t.visited[i] by {
            assert(s.done[i]);
        }
    } else {
        let idx = s.queues[q][0];
        let i0 = idx as int;
        assert(s.queues[q][0] < n);
        lemma_drop_first_count(s.queues[q], idx);
        lemma_qcount_update(s.queues, q, s.queues[q].drop_first(), idx);
        lemma_qcount_nonneg(s.queues.update(q, s.queues[q].drop_first()), idx);
        assert(qcount(s.queues, i0 as usize) == if s.visited[i0] && !s.done[i0] { 1int } else { 0int });
        assert(i0 as usize == idx);
        assert(s.visited[i0] && !s.done[i0]);
        let ran = spec_min(s.remaining[i0], quantum_of(quanta, q));
        let s1 = FbState {
            queues: s.queues.update(q, s.queues[q].drop_first()),
            first_run: if s.first_run[i0] is None {
                s.first_run.update(i0, Some(s.time))
            } else {
                s.first_run
            },
            remaining: s.remaining.update(i0, s.remaining[i0] - ran),
            time: s.time + ran,
            order: s.order.push(idx),
            ..s
        };
        assert(fb_inv(procs, rank, nq, s1)) by {
            assert forall|p: int, k: int|
                0 <= p < s1.queues.len() && 0 <= k < s1.queues[p].len() implies #[trigger] s1.queues[p][k] < procs.len() by {
                if p == q {
                    assert(s1.queues[p][k] == s.queues[p][k + 1]);
                } else {
                    assert(s1.queues[p][k] == s.queues[p][k]);
                }
            }
        }
        lemma_admit_frame(procs, rank, nq, s1);
        lemma_admit_inv(procs, rank, nq, s1);
        let s2 = fb_admit(procs, rank, s1);
        lemma_sum_update(s.remaining, i0, s.remaining[i0] - ran);
        // queue counts
        assert forall|i: int| 0 <= i < n implies #[trigger] qcount(t.queues, i as usize) == if t.visited[i] && !t.done[i] { 1int } else { 0int } by {
            lemma_qcount_update(s.queues, q, s.queues[q].drop_first(), i as usize);
            lemma_drop_first_count(s.queues[q], i as usize);
            assert(qcount(s.queues, i as usize) == if s.visited[i] && !s.done[i] { 1int } else { 0int });
            if s2.remaining[i0] > 0 {
                let nl = spec_min(s2.level[i0] + 1, nq - 1);
                lemma_qcount_update(s2.queues, nl, s2.queues[nl].push(idx), i as usize);
                lemma_push_count(s2.queues[nl], idx, i as usize);
            }
            if s.done[i] {
                assert(s.visited[i]);
            }
        }
        assert forall|k: int| 0 <= k < n implies t.visited[#[trigger] rank[k] as int] == (k < t.next) by {
            admit_rank_visited(procs, rank, nq, s1);
        }
        assert forall|i: int| 0 <= i < n && #[trigger] t.done[i] implies t.visited[i] by {
            if i != i0 {
                assert(s.done[i]);
                assert(s.visited[i]);
            }
        }
        if s2.remaining[i0] <= 0 {
            lemma_count_false_update(s.done, i0);
        }
        assert forall|i: int| 0 <= i < n && #[trigger] t.visited[i] implies procs[i].arrival_time <= t.time by {
            if s.visited[i] {
            } else {
            }
        }
        assert forall|i: int| 0 <= i < n implies match #[trigger] t.first_run[i] {
            Some(f) => procs[i].arrival_time <= f && f + (procs[i].burst_time - t.remaining[i]) <= t.time && t.remaining[i] <= procs[i].burst_time,
            None => t.remaining[i] == procs[i].burst_time,
        } by {
            match s.first_run[i] {
                Some(f) => {},
                None => {},
            }
        }
        assert forall|i: int| 0 <= i < n && #[trigger] t.done[i] implies t.first_run[i] is Some && t.remaining[i] == 0
            && t.completion[i] >= t.first_run[i]->0 + procs[i].burst_time by {
            if i != i0 {
                assert(s.done[i]);
            } else {
                match t.first_run[i] {
                    Some(f) => {},
                    None => {},
                }
            }
        }
    }
}

/// Admitting keeps "the first `next` processes of the arrival order are visited".
proof fn admit_rank_visited(procs: Seq<Process>, rank: Seq<usize>, nq: int, s: FbState)
    requires
        fb_inv(procs, rank, nq, s),
        rank_perm(procs, rank),
        forall|k: int| 0 <= k < procs.len() ==> s.visited[#[trigger] rank[k] as int] == (k < s.next),
    ensures
        forall|k: int| 0 <= k < procs.len() ==> fb_admit(procs, rank, s).visited[#[trigger] rank[k] as int] == (k < fb_admit(procs, rank, s).next),
    decreases procs.len() - s.next,
{
    let n = procs.len();
    if 0 <= s.next < n && procs[rank[s.next] as int].arrival_time <= s.time {
        let ni = rank[s.next];
        let s2 = if !s.visited[ni as int] {
            FbState {
                queues: s.queues.update(0, s.queues[0].push(ni)),
                visited: s.visited.update(ni as int, true),
                ..s
            }
        } else {
            s
        };
        let s3 = FbState { next: s.next + 1, ..s2 };
        assert(fb_inv(procs, rank, nq, s3)) by {
            assert forall|q: int, k: int|
                0 <= q < s3.queues.len() && 0 <= k < s3.queues[q].len() implies #[trigger] s3.queues[q][k] < procs.len() by {
                if q == 0 && !s.visited[ni as int] && k == s.queues[0].len() {
                } else {
                    assert(s3.queues[q][k] == s.queues[q][k]);
                }
            }
        }
        assert forall|k: int| 0 <= k < n implies s3.visited[#[trigger] rank[k] as int] == (k < s3.next) by {
            if k != s.next {
                assert(rank[k] != rank[s.next]);
            }
        }
        admit_rank_visited(procs, rank, nq, s3);
    }
}

proof fn lemma_count_false_zero(s: Seq<bool>)
    requires
        forall|i: int| 0 <= i < s.len() ==> #[trigger] s[i],
    ensures
        count_false(s) == 0,
{
    if count_false(s) > 0 {
        lemma_count_false_exists(s);
    }
}

proof fn lemma_count_false_bound(s: Seq<bool>)
    ensures
        count_false(s) <= s.len(),
    decreases s.len(),
{
    if s.len() > 0 {
        lemma_count_false_bound(s.drop_last());
    }
}

/// The pre-admission state of `fb_init`.
pub(crate) open spec fn fb_blank(procs: Seq<Process>, nq: int) -> FbState {
    let n = procs.len();
    FbState {
        queues: Seq::new(nq as nat, |q: int| Seq::empty()),
        remaining: Seq::new(n, |i: int| procs[i].burst_time as int),
        first_run: Seq::new(n, |i: int| None),
        completion: Seq::new(n, |i: int| 0),
        level: Seq::new(n, |i: int| 0),
        time: 0,
        next: 0,
        visited: Seq::new(n, |i: int| false),
        completed: 0,
        order: Seq::empty(),
        done: Seq::new(n, |i: int| false),
    }
}

pub(crate) proof fn lemma_init_good(procs: Seq<Process>, nq: int)
    requires
        procs.len() <= usize::MAX,
        procs.len() > 0 ==> nq >= 1,
        nq >= 0,
    ensures
        fb_inv(procs, arrival_order(procs), nq, fb_start(procs, nq)),
        fb_good(procs, arrival_order(procs), fb_start(procs, nq)),
        rank_perm(procs, arrival_order(procs)),
{
    let rank = arrival_order(procs);
    lemma_arrival_order_perm(procs);
    let s0 = fb_blank(procs, nq);
    assert(fb_start(procs, nq) == fb_admit(procs, rank, s0));
    assert(fb_inv(procs, rank, nq, s0));
    assert forall|i: int| 0 <= i < procs.len() implies #[trigger] qcount(s0.queues, i as usize) == if s0.visited[i] && !s0.done[i] { 1int } else { 0int } by {
        lemma_qcount_empty(s0.queues, i as usize);
    }
    lemma_count_false_all(procs.len());
    lemma_max_arrival(procs);
    assert(s0.remaining =~= Seq::new(procs.len(), |i: int| procs[i].burst_time as int));
    assert(fb_good(procs, rank, s0));
    lemma_admit_good(procs, rank, nq, s0);
    lemma_admit_inv(procs, rank, nq, s0);
}

proof fn lemma_stopped_finished(procs: Seq<Process>, rank: Seq<usize>, nq: int, s: FbState)
    requires
        fb_inv(procs, rank, nq, s),
        fb_good(procs, rank, s),
        rank_perm(procs, rank),
        fb_stopped(procs, s),
    ensures
        fb_finished(procs, s),
{
    let n = procs.len();
    if !fb_finished(procs, s) {
        lemma_first_active(s.queues, 0);
        assert forall|i: int| 0 <= i < n implies #[trigger] s.done[i] by {
            assert(ranked(rank, i));
            let k = choose|k: int| 0 <= k < rank.len() && rank[k] == i;
            assert(s.visited[rank[k] as int]);
            lemma_qcount_empty(s.queues, i as usize);
            assert(qcount(s.queues, i as usize) == if s.visited[i] && !s.done[i] { 1int } else { 0int });
        }
        lemma_count_false_zero(s.done);
    }
}

/// Remaining work plus processes not yet admitted plus processes not yet completed.
spec fn fb_measure(procs: Seq<Process>, s: FbState) -> int {
    sum(s.remaining) + (procs.len() - s.next) + (procs.len() - s.completed)
}

proof fn lemma_step_measure(procs: Seq<Process>, rank: Seq<usize>, nq: int, quanta: Seq<u64>, s: FbState)
    requires
        fb_inv(procs, rank, nq, s),
        fb_good(procs, rank, s),
        positive_quanta(nq, quanta),
        !fb_stopped(procs, s),
    ensures
        fb_measure(procs, fb_step(procs, rank, nq, quanta, s)) < fb_measure(procs, s),
        fb_measure(procs, s) >= 0,
{
    lemma_sum_nonneg(s.remaining);
    lemma_count_false_bound(s.done);
    let q = first_active(s.queues, 0);
    lemma_first_active(s.queues, 0);
    if q >= 0 {
        let idx = s.queues[q][0];
        let i0 = idx as int;
        assert(s.queues[q][0] < procs.len());
        let ran = spec_min(s.remaining[i0], quantum_of(quanta, q));
        assert(quantum_of(quanta, q) > 0);
        let s1 = FbState {
            queues: s.queues.update(q, s.queues[q].drop_first()),
            first_run: if s.first_run[i0] is None {
                s.first_run.update(i0, Some(s.time))
            } else {
                s.first_run
            },
            remaining: s.remaining.update(i0, s.remaining[i0] - ran),
            time: s.time + ran,
            order: s.order.push(idx),
            ..s
        };
        assert(fb_inv(procs, rank, nq, s1)) by {
            assert forall|p: int, k: int|
                0 <= p < s1.queues.len() && 0 <= k < s1.queues[p].len() implies #[trigger] s1.queues[p][k] < procs.len() by {
                if p == q {
                    assert(s1.queues[p][k] == s.queues[p][k + 1]);
                } else {
                    assert(s1.queues[p][k] == s.queues[p][k]);
                }
            }
        }
        lemma_admit_inv(procs, rank, nq, s1);
        lemma_sum_update(s.remaining, i0, s.remaining[i0] - ran);
    }
}

proof fn lemma_reach(procs: Seq<Process>, rank: Seq<usize>, nq: int, quanta: Seq<u64>, s: FbState) -> (f: nat)
    requires
        fb_inv(procs, rank, nq, s),
        fb_good(procs, rank, s),
        rank_perm(procs, rank),
        positive_quanta(nq, quanta),
    ensures
        fb_finished(procs, fb_run(procs, rank, nq, quanta, s, f)),
    decreases fb_measure(procs, s),
{
    if fb_finished(procs, s) {
        0
    } else {
        if fb_stopped(procs, s) {
            lemma_stopped_finished(procs, rank, nq, s);
        }
        lemma_step_measure(procs, rank, nq, quanta, s);
        lemma_step_inv(procs, rank, nq, quanta, s);
        lemma_step_good(procs, rank, nq, quanta, s);
        let t = fb_step(procs, rank, nq, quanta, s);
        lemma_sum_nonneg(t.remaining);
        lemma_count_false_bound(t.done);
        assert(fb_measure(procs, t) >= 0);
        let f = lemma_reach(procs, rank, nq, quanta, t);
        assert(fb_run(procs, rank, nq, quanta, s, f + 1) == fb_run(procs, rank, nq, quanta, t, f));
        f + 1
    }
}

proof fn lemma_run_good(procs: Seq<Process>, rank: Seq<usize>, nq: int, quanta: Seq<u64>, s: FbState, k: nat)
    requires
        fb_inv(procs, rank, nq, s),
        fb_good(procs, rank, s),
        rank_perm(procs, rank),
    ensures
        fb_inv(procs, rank, nq, fb_run(procs, rank, nq, quanta, s, k)),
        fb_good(procs, rank, fb_run(procs, rank, nq, quanta, s, k)),
    decreases k,
{
    if k > 0 && !fb_stopped(procs, s) {
        lemma_step_inv(procs, rank, nq, quanta, s);
        lemma_step_good(procs, rank, nq, quanta, s);
        lemma_run_good(procs, rank, nq, quanta, fb_step(procs, rank, nq, quanta, s), (k - 1) as nat);
    }
}

/// With every used quantum positive, the feedback scheduler completes every
/// process, each process gets the CPU no earlier than its arrival and completes no
/// earlier than its arrival plus its burst, and the schedule ends by the latest
/// arrival plus the total burst time. So it may be run whenever that sum fits.
pub proof fn lemma_fb_runnable(procs: Seq<Process>, nq: int, quanta: Seq<u64>)
    requires
        procs.len() <= usize::MAX,
        nq >= 0,
        procs.len() > 0 ==> nq >= 1 && quanta.len() >= 1,
        positive_quanta(nq, quanta),
        max_arrival(procs) + total_burst(procs) <= u64::MAX,
    ensures
        fb_runnable(procs, nq, quanta),
        fb_well_ended(procs, fb_final(procs, nq, quanta)),
        fb_final(procs, nq, quanta).time <= max_arrival(procs) + total_burst(procs),
{
    let rank = arrival_order(procs);
    let init = fb_start(procs, nq);
    lemma_init_good(procs, nq);
    let f0 = lemma_reach(procs, rank, nq, quanta, init);
    assert(fb_halts(procs, nq, quanta));
    let f = fb_fuel(procs, nq, quanta);
    assert(fb_finished(procs, fb_run(procs, rank, nq, quanta, init, f)));
    lemma_run_good(procs, rank, nq, quanta, init, f);
    let fin = fb_final(procs, nq, quanta);
    assert(fin == fb_run(procs, rank, nq, quanta, init, f));
    lemma_sum_nonneg(fin.remaining);
    lemma_halts_well_ended(procs, nq, quanta);
}

/// Whenever the feedback scheduler halts, every process got the CPU no earlier than its
/// arrival and completed no earlier than its arrival plus its burst.
pub proof fn lemma_halts_well_ended(procs: Seq<Process>, nq: int, quanta: Seq<u64>)
    requires
        procs.len() <= usize::MAX,
        nq >= 0,
        procs.len() > 0 ==> nq >= 1 && quanta.len() >= 1,
        fb_halts(procs, nq, quanta),
    ensures
        fb_well_ended(procs, fb_final(procs, nq, quanta)),
{
    let rank = arrival_order(procs);
    let init = fb_start(procs, nq);
    lemma_init_good(procs, nq);
    let f = fb_fuel(procs, nq, quanta);
    assert(fb_finished(procs, fb_run(procs, rank, nq, quanta, init, f)));
    lemma_run_good(procs, rank, nq, quanta, init, f);
    let fin = fb_final(procs, nq, quanta);
    assert(fin == fb_run(procs, rank, nq, quanta, init, f));
    assert forall|i: int| 0 <= i < procs.len() implies #[trigger] fin.done[i] by {
        if !fin.done[i] {
            crate::util::lemma_count_false_pos(fin.done, i);
        }
    }
    assert forall|i: int| 0 <= i < procs.len() implies {
        &&& #[trigger] fin.first_run[i] is Some
        &&& procs[i].arrival_time <= fin.first_run[i]->0
        &&& procs[i].arrival_time + procs[i].burst_time <= fin.completion[i]
    } by {
        assert(fin.done[i]);
        match fin.first_run[i] {
            Some(x) => {},
            None => {},
        }
    }
}

/// Every queued process's level is the queue it waits in, and a process not yet admitted
/// is at level 0.
pub open spec fn levels_match(procs: Seq<Process>, s: FbState) -> bool {
    &&& forall|q: int, k: int|
        0 <= q < s.queues.len() && 0 <= k < s.queues[q].len() ==> s.level[#[trigger] s.queues[q][k] as int] == q
    &&& forall|i: int| 0 <= i < procs.len() && !s.visited[i] ==> #[trigger] s.level[i] == 0
}

proof fn lemma_qcount_absent(qs: Seq<Seq<usize>>, i: usize)
    requires
        qcount(qs, i) == 0,
    ensures
        forall|q: int, k: int| 0 <= q < qs.len() && 0 <= k < qs[q].len() ==> #[trigger] qs[q][k] != i,
    decreases qs.len(),
{
    broadcast use vstd::seq_lib::group_to_multiset_ensures;
    if qs.len() > 0 {
        let d = qs.drop_last();
        lemma_qcount_nonneg(d, i);
        qs.last().to_multiset_ensures();
        lemma_qcount_absent(d, i);
        assert forall|q: int, k: int| 0 <= q < qs.len() && 0 <= k < qs[q].len() implies #[trigger] qs[q][k] != i by {
            if q < qs.len() - 1 {
                assert(qs[q] == d[q]);
            } else {
                assert(!qs.last().contains(i));
                assert(qs[q] == qs.last());
            }
        }
    }
}

proof fn lemma_admit_levels(procs: Seq<Process>, rank: Seq<usize>, nq: int, s: FbState)
    requires
        fb_inv(procs, rank, nq, s),
        levels_match(procs, s),
    ensures
        levels_match(procs, fb_admit(procs, rank, s)),
        fb_admit(procs, rank, s).level == s.level,
    decreases procs.len() - s.next,
{
    let n = procs.len();
    if 0 <= s.next < n && procs[rank[s.next] as int].arrival_time <= s.time {
        let ni = rank[s.next];
        let s2 = if !s.visited[ni as int] {
            FbState {
                queues: s.queues.update(0, s.queues[0].push(ni)),
                visited: s.visited.update(ni as int, true),
                ..s
            }
        } else {
            s
        };
        let s3 = FbState { next: s.next + 1, ..s2 };
        assert(fb_inv(procs, rank, nq, s3)) by {
            assert forall|q: int, k: int|
                0 <= q < s3.queues.len() && 0 <= k < s3.queues[q].len() implies #[trigger] s3.queues[q][k] < procs.len() by {
                if q == 0 && !s.visited[ni as int] && k == s.queues[0].len() {
                } else {
                    assert(s3.queues[q][k] == s.queues[q][k]);
                }
            }
        }
        assert(levels_match(procs, s3)) by {
            assert forall|q: int, k: int|
                0 <= q < s3.queues.len() && 0 <= k < s3.queues[q].len() implies s3.level[#[trigger] s3.queues[q][k] as int] == q by {
                if q == 0 && !s.visited[ni as int] && k == s.queues[0].len() {
                    assert(s3.queues[q][k] == ni);
                } else {
                    assert(s3.queues[q][k] == s.queues[q][k]);
                }
            }
        }
        lemma_admit_levels(procs, rank, nq, s3);
        assert(fb_admit(procs, rank, s) == fb_admit(procs, rank, s3));
    }
}

/// One round keeps every level equal to the queue its process waits in; and a process
/// that runs from queue `q` without finishing goes to the back of queue `min(q + 1, nq - 1)`
/// and is recorded at that level.
proof fn lemma_step_levels(procs: Seq<Process>, rank: Seq<usize>, nq: int, quanta: Seq<u64>, s: FbState)
    requires
        fb_inv(procs, rank, nq, s),
        fb_good(procs, rank, s),
        rank_perm(procs, rank),
        levels_match(procs, s),
        !fb_stopped(procs, s),
    ensures
        levels_match(procs, fb_step(procs, rank, nq, quanta, s)),
        ({
            let q = first_active(s.queues, 0);
            let t = fb_step(procs, rank, nq, quanta, s);
            let idx = s.queues[q][0];
            let nl = spec_min(q + 1, nq - 1);
            q >= 0 && t.remaining[idx as int] > 0 ==> {
                &&& t.level[idx as int] == nl
                &&& t.queues[nl].len() > 0
                &&& t.queues[nl].last() == idx
            }
        }),
{
    let n = procs.len();
    let q = first_active(s.queues, 0);
    lemma_first_active(s.queues, 0);
    let t = fb_step(procs, rank, nq, quanta, s);
    if q < 0 {
        let ni = rank[s.next];
        assert(!s.visited[ni as int]);
        assert forall|p: int, k: int|
            0 <= p < t.queues.len() && 0 <= k < t.queues[p].len() implies t.level[#[trigger] t.queues[p][k] as int] == p by {
            if p == 0 && k == s.queues[0].len() {
                assert(t.queues[p][k] == ni);
            } else {
                assert(t.queues[p][k] == s.queues[p][k]);
            }
        }
    } else {
        let idx = s.queues[q][0];
        let i0 = idx as int;
        assert(s.queues[q][0] < n);
        assert(s.level[i0] == q);
        lemma_drop_first_count(s.queues[q], idx);
        lemma_qcount_update(s.queues, q, s.queues[q].drop_first(), idx);
        lemma_qcount_nonneg(s.queues.update(q, s.queues[q].drop_first()), idx);
        assert(qcount(s.queues, i0 as usize) == if s.visited[i0] && !s.done[i0] { 1int } else { 0int });
        assert(i0 as usize == idx);
        assert(s.visited[i0] && !s.done[i0]);
        let ran = spec_min(s.remaining[i0], quantum_of(quanta, q));
        let s1 = FbState {
            queues: s.queues.update(q, s.queues[q].drop_first()),
            first_run: if s.first_run[i0] is None {
                s.first_run.update(i0, Some(s.time))
            } else {
                s.first_run
            },
            remaining: s.remaining.update(i0, s.remaining[i0] - ran),
            time: s.time + ran,
            order: s.order.push(idx),
            ..s
        };
        assert(fb_inv(procs, rank, nq, s1)) by {
            assert forall|p: int, k: int|
                0 <= p < s1.queues.len() && 0 <= k < s1.queues[p].len() implies #[trigger] s1.queues[p][k] < procs.len() by {
                if p == q {
                    assert(s1.queues[p][k] == s.queues[p][k + 1]);
                } else {
                    assert(s1.queues[p][k] == s.queues[p][k]);
                }
            }
        }
        assert(levels_match(procs, s1)) by {
            assert forall|p: int, k: int|
                0 <= p < s1.queues.len() && 0 <= k < s1.queues[p].len() implies s1.level[#[trigger] s1.queues[p][k] as int] == p by {
                if p == q {
                    assert(s1.queues[p][k] == s.queues[p][k + 1]);
                } else {
                    assert(s1.queues[p][k] == s.queues[p][k]);
                }
            }
        }
        lemma_admit_levels(procs, rank, nq, s1);
        lemma_admit_frame(procs, rank, nq, s1);
        lemma_admit_inv(procs, rank, nq, s1);
        let s2 = fb_admit(procs, rank, s1);
        assert(qcount(s2.queues, idx) == 0) by {
            assert(qcount(s2.queues, i0 as usize) == qcount(s1.queues, i0 as usize) + if s2.visited[i0] && !s1.visited[i0] { 1int } else { 0int });
        }
        lemma_qcount_absent(s2.queues, idx);
        if s2.remaining[i0] > 0 {
            let nl = spec_min(s2.level[i0] + 1, nq - 1);
            assert(nl == spec_min(q + 1, nq - 1));
            assert(t.queues == s2.queues.update(nl, s2.queues[nl].push(idx)));
            assert(t.level == s2.level.update(i0, nl));
            assert forall|p: int, k: int|
                0 <= p < t.queues.len() && 0 <= k < t.queues[p].len() implies t.level[#[trigger] t.queues[p][k] as int] == p by {
                if p == nl && k == s2.queues[nl].len() {
                    assert(t.queues[p][k] == idx);
                } else {
                    assert(t.queues[p][k] == s2.queues[p][k]);
                    assert(s2.queues[p][k] != idx);
                }
            }
        }
    }
}

/// Every state the feedback scheduler reaches keeps each level equal to the queue its
/// process waits in.
pub proof fn lemma_levels_reachable(procs: Seq<Process>, nq: int, quanta: Seq<u64>, k: nat)
    requires
        procs.len() <= usize::MAX,
        nq >= 0,
        procs.len() > 0 ==> nq >= 1,
    ensures
        levels_match(procs, fb_run(procs, arrival_order(procs), nq, quanta, fb_start(procs, nq), k)),
{
    let rank = arrival_order(procs);
    let s0 = fb_blank(procs, nq);
    lemma_init_good(procs, nq);
    assert(fb_inv(procs, rank, nq, s0));
    assert(levels_match(procs, s0));
    lemma_admit_levels(procs, rank, nq, s0);
    assert(fb_start(procs, nq) == fb_admit(procs, rank, s0));
    lemma_levels_run(procs, rank, nq, quanta, fb_start(procs, nq), k);
}

proof fn lemma_levels_run(procs: Seq<Process>, rank: Seq<usize>, nq: int, quanta: Seq<u64>, s: FbState, k: nat)
    requires
        fb_inv(procs, rank, nq, s),
        fb_good(procs, rank, s),
        rank_perm(procs, rank),
        levels_match(procs, s),
    ensures
        levels_match(procs, fb_run(procs, rank, nq, quanta, s, k)),
    decreases k,
{
    if k > 0 && !fb_stopped(procs, s) {
        lemma_step_levels(procs, rank, nq, quanta, s);
        lemma_step_inv(procs, rank, nq, quanta, s);
        lemma_step_good(procs, rank, nq, quanta, s);
        lemma_levels_run(procs, rank, nq, quanta, fb_step(procs, rank, nq, quanta, s), (k - 1) as nat);
    }
}

/// MLFQ demotion: in every reachable state, a process that runs from queue `q` and does
/// not finish goes to the back of queue `min(q + 1, nq - 1)`, and its level records that.
pub proof fn lemma_feedback_demotes(procs: Seq<Process>, nq: int, quanta: Seq<u64>, k: nat)
    requires
        procs.len() <= usize::MAX,
        nq >= 0,
        procs.len() > 0 ==> nq >= 1,
    ensures
        ({
            let rank = arrival_order(procs);
            let s = fb_run(procs, rank, nq, quanta, fb_start(procs, nq), k);
            let q = first_active(s.queues, 0);
            let t = fb_step(procs, rank, nq, quanta, s);
            let idx = s.queues[q][0];
            let nl = spec_min(q + 1, nq - 1);
            !fb_stopped(procs, s) && q >= 0 && t.remaining[idx as int] > 0 ==> {
                &&& t.level[idx as int] == nl
                &&& t.queues[nl].len() > 0
                &&& t.queues[nl].last() == idx
                &&& levels_match(procs, t)
            }
        }),
{
    let rank = arrival_order(procs);
    lemma_init_good(procs, nq);
    lemma_levels_reachable(procs, nq, quanta, k);
    lemma_run_good(procs, rank, nq, quanta, fb_start(procs, nq), k);
    let s = fb_run(procs, rank, nq, quanta, fb_start(procs, nq), k);
    if !fb_stopped(procs, s) {
        lemma_step_levels(procs, rank, nq, quanta, s);
    }
}

} // verus!
