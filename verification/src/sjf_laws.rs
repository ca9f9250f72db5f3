use vstd::prelude::*;
use crate::util::{sum, lemma_sum_append, lemma_sum_nonneg, count_false, lemma_count_false_update, lemma_count_false_exists, lemma_count_false_pos};
use crate::scheduling::{Process, np_schedule, np_clock, np_keys_ok, np_full, np_finish, pending, ready, pick_exists, lemma_np_pick_unique, lemma_np_schedule_monotone, arrival_order, fcfs_clock, lemma_arrival_order_perm, lemma_fcfs_clock_monotone, index_seq, arrival_le, lemma_arrival_le_total};
use crate::feedback_laws::total_burst;
use crate::agent_scheduler::{all_at_zero, np_waits, fcfs_waits, lemma_np_total, lemma_fcfs_total};
use vstd::multiset::Multiset;

verus! {

/// Total waiting time of jobs with bursts `a` run back to back from time 0 in that order:
/// each job waits for the bursts of the jobs before it.
pub open spec fn back_to_back_wait(a: Seq<int>) -> int
    decreases a.len(),
{
    if a.len() == 0 {
        0
    } else {
        back_to_back_wait(a.drop_last()) + sum(a.drop_last())
    }
}

/// `a` never decreases.
pub open spec fn ascending(a: Seq<int>) -> bool {
    forall|i: int, j: int| 0 <= i <= j < a.len() ==> a[i] <= a[j]
}

proof fn lemma_single(m: int)
    ensures
        back_to_back_wait(seq![m]) == 0,
        sum(seq![m]) == m,
{
    let e = Seq::<int>::empty();
    assert(seq![m].drop_last() =~= e);
    assert(back_to_back_wait(e) == 0);
    assert(sum(e) == 0);
}

proof fn lemma_wait_concat(c: Seq<int>, d: Seq<int>)
    ensures
        back_to_back_wait(c + d) == back_to_back_wait(c) + back_to_back_wait(d) + d.len() * sum(c),
    decreases d.len(),
{
    if d.len() == 0 {
        assert(c + d =~= c);
    } else {
        let d2 = d.drop_last();
        lemma_wait_concat(c, d2);
        assert((c + d).drop_last() =~= c + d2);
        lemma_sum_append(c, d2);
        assert(d.len() * sum(c) == d2.len() * sum(c) + sum(c)) by (nonlinear_arith)
            requires
                d.len() == d2.len() + 1,
        ;
    }
}

proof fn lemma_sum_at_least(x: Seq<int>, m: int)
    requires
        forall|i: int| 0 <= i < x.len() ==> x[i] >= m,
    ensures
        sum(x) >= x.len() * m,
    decreases x.len(),
{
    if x.len() > 0 {
        lemma_sum_at_least(x.drop_last(), m);
        assert(x.len() * m == x.drop_last().len() * m + m) by (nonlinear_arith)
            requires
                x.len() == x.drop_last().len() + 1,
        ;
    }
}

/// Running a smallest job first instead of at position `p` does not add waiting.
proof fn lemma_least_first(a: Seq<int>, p: int)
    requires
        0 <= p < a.len(),
        forall|i: int| 0 <= i < a.len() ==> a[i] >= a[p],
    ensures
        back_to_back_wait(seq![a[p]] + a.remove(p)) <= back_to_back_wait(a),
{
    let m = a[p];
    let x = a.take(p);
    let y = a.skip(p + 1);
    assert(a =~= (x + seq![m]) + y);
    assert(a.remove(p) =~= x + y);
    assert(seq![m] + a.remove(p) =~= (seq![m] + x) + y);
    lemma_wait_concat(x + seq![m], y);
    lemma_wait_concat(x, seq![m]);
    lemma_wait_concat(seq![m] + x, y);
    lemma_wait_concat(seq![m], x);
    lemma_sum_append(x, seq![m]);
    lemma_sum_append(seq![m], x);
    lemma_single(m);
    assert forall|i: int| 0 <= i < x.len() implies x[i] >= m by {
        assert(x[i] == a[i]);
    }
    lemma_sum_at_least(x, m);
    assert(x.len() == p);
}

/// Among all orders of the same jobs, the ascending one waits least.
pub proof fn lemma_ascending_waits_least(s: Seq<int>, a: Seq<int>)
    requires
        ascending(s),
        a.to_multiset() == s.to_multiset(),
    ensures
        back_to_back_wait(s) <= back_to_back_wait(a),
    decreases s.len(),
{
    broadcast use vstd::seq_lib::group_to_multiset_ensures;
    a.to_multiset_ensures();
    s.to_multiset_ensures();
    assert(a.len() == s.len());
    if s.len() == 0 {
        assert(a =~= s);
    } else {
        let m = s[0];
        assert(s.to_multiset().count(m) > 0) by {
            assert(s.contains(m));
        }
        assert(a.contains(m)) by {
            assert(a.to_multiset().count(m) > 0);
        }
        let p = choose|p: int| 0 <= p < a.len() && a[p] == m;
        assert forall|i: int| 0 <= i < a.len() implies a[i] >= a[p] by {
            assert(a.to_multiset().count(a[i]) > 0);
            assert(s.to_multiset().count(a[i]) > 0);
            assert(s.contains(a[i]));
            let k = choose|k: int| 0 <= k < s.len() && s[k] == a[i];
        }
        lemma_least_first(a, p);
        let r = a.remove(p);
        let t = s.drop_first();
        assert(s.remove(0) =~= t);
        assert(t.to_multiset() =~= r.to_multiset());
        assert(ascending(t)) by {
            assert forall|i: int, j: int| 0 <= i <= j < t.len() implies t[i] <= t[j] by {
                assert(t[i] == s[i + 1] && t[j] == s[j + 1]);
            }
        }
        lemma_ascending_waits_least(t, r);
        assert(s =~= seq![m] + t);
        lemma_wait_concat(seq![m], t);
        lemma_wait_concat(seq![m], r);
        lemma_single(m);
        assert(r.len() == t.len());
    }
}

/// Bursts of the processes among the first `k` that are not done.
pub open spec fn pending_bursts(procs: Seq<Process>, done: Seq<bool>, k: int) -> Multiset<int>
    decreases k,
{
    if k <= 0 {
        Multiset::empty()
    } else {
        let rest = pending_bursts(procs, done, k - 1);
        if done[k - 1] {
            rest
        } else {
            rest.insert(procs[k - 1].burst_time as int)
        }
    }
}

proof fn lemma_pending_done(procs: Seq<Process>, done: Seq<bool>, i: int, k: int)
    requires
        0 <= i < done.len(),
        !done[i],
        0 <= k <= done.len(),
    ensures
        i < k ==> pending_bursts(procs, done, k).count(procs[i].burst_time as int) > 0,
        i < k ==> pending_bursts(procs, done.update(i, true), k) =~= pending_bursts(procs, done, k).remove(procs[i].burst_time as int),
        i >= k ==> pending_bursts(procs, done.update(i, true), k) =~= pending_bursts(procs, done, k),
    decreases k,
{
    if k > 0 {
        lemma_pending_done(procs, done, i, k - 1);
        let b = procs[i].burst_time as int;
        if i < k - 1 {
            let pre = pending_bursts(procs, done, k - 1);
            if !done[k - 1] {
                let x = procs[k - 1].burst_time as int;
                assert(pre.remove(b).insert(x) =~= pre.insert(x).remove(b)) by {
                    assert(pre.count(b) > 0);
                }
            }
        }
    }
}

proof fn lemma_pending_none(procs: Seq<Process>, done: Seq<bool>, k: int)
    requires
        0 <= k <= done.len(),
        forall|i: int| 0 <= i < done.len() ==> #[trigger] done[i],
    ensures
        pending_bursts(procs, done, k) =~= Multiset::<int>::empty(),
    decreases k,
{
    if k > 0 {
        lemma_pending_none(procs, done, k - 1);
    }
}

/// The burst of each process, in input order.
pub open spec fn bursts(procs: Seq<Process>) -> Seq<int> {
    Seq::new(procs.len(), |i: int| procs[i].burst_time as int)
}

proof fn lemma_pending_all(procs: Seq<Process>, k: int)
    requires
        0 <= k <= procs.len(),
    ensures
        pending_bursts(procs, Seq::new(procs.len(), |i: int| false), k) =~= bursts(procs).take(k).to_multiset(),
    decreases k,
{
    broadcast use vstd::seq_lib::group_to_multiset_ensures;
    if k > 0 {
        lemma_pending_all(procs, k - 1);
        assert(bursts(procs).take(k) =~= bursts(procs).take(k - 1).push(procs[k - 1].burst_time as int));
    }
}

/// The bursts of the processes in the order a schedule runs them.
pub open spec fn run_bursts(procs: Seq<Process>, sched: Seq<(int, int, int)>) -> Seq<int> {
    sched.map_values(|s: (int, int, int)| procs[s.0].burst_time as int)
}

/// With every arrival at 0, SJF runs the pending processes back to back from `t`, in
/// ascending order of burst.
proof fn lemma_sjf_schedule(procs: Seq<Process>, done: Seq<bool>, t: int, left: nat)
    requires
        all_at_zero(procs),
        np_keys_ok(procs, false),
        done.len() == procs.len(),
        count_false(done) == left,
        t >= 0,
    ensures
        ({
            let sched = np_schedule(procs, false, done, t, left);
            let pb = run_bursts(procs, sched);
            &&& sched.len() == left
            &&& forall|j: int| 0 <= j < left ==> (#[trigger] sched[j]).1 == t + sum(pb.take(j))
            &&& forall|j: int| 0 <= j < left ==> 0 <= (#[trigger] sched[j]).0 < procs.len() && !done[sched[j].0]
            &&& ascending(pb)
            &&& pb.to_multiset() =~= pending_bursts(procs, done, procs.len() as int)
        }),
    decreases left,
{
    broadcast use vstd::seq_lib::group_to_multiset_ensures;
    let n = procs.len();
    let sched = np_schedule(procs, false, done, t, left);
    let pb = run_bursts(procs, sched);
    if left == 0 {
        assert forall|i: int| 0 <= i < n implies #[trigger] done[i] by {
            if !done[i] {
                lemma_count_false_pos(done, i);
            }
        }
        lemma_pending_none(procs, done, n as int);
        assert(pb =~= Seq::<int>::empty());
    } else {
        lemma_count_false_exists(done);
        let i0 = choose|i: int| 0 <= i < done.len() && !done[i];
        assert(pending(procs, done, i0));
        assert(ready(procs, done, t, i0));
        assert(np_clock(procs, done, t) == t);
        let i = pick_exists(procs, false, done, t);
        lemma_np_pick_unique(procs, false, done, t, i);
        let bi = procs[i].burst_time as int;
        let end = t + bi;
        let d2 = done.update(i, true);
        lemma_count_false_update(done, i);
        lemma_sjf_schedule(procs, d2, end, (left - 1) as nat);
        let rest = np_schedule(procs, false, d2, end, (left - 1) as nat);
        let pr = run_bursts(procs, rest);
        assert(sched =~= seq![(i, t, end)] + rest);
        assert(pb =~= seq![bi] + pr);
        lemma_single(bi);
        assert forall|j: int| 0 <= j < left implies (#[trigger] sched[j]).1 == t + sum(pb.take(j)) by {
            if j == 0 {
                assert(pb.take(0) =~= Seq::<int>::empty());
            } else {
                assert(sched[j] == rest[j - 1]);
                assert(pb.take(j) =~= seq![bi] + pr.take(j - 1));
                lemma_sum_append(seq![bi], pr.take(j - 1));
            }
        }
        assert forall|j: int| 0 <= j < left implies 0 <= (#[trigger] sched[j]).0 < procs.len() && !done[sched[j].0] by {
            if j > 0 {
                assert(sched[j] == rest[j - 1]);
            }
        }
        assert(ascending(pb)) by {
            assert forall|a: int, b: int| 0 <= a <= b < pb.len() implies pb[a] <= pb[b] by {
                if a == 0 {
                    if b > 0 {
                        let r = rest[b - 1].0;
                        assert(ready(procs, done, t, r));
                        assert(pb[b] == pr[b - 1]);
                    }
                } else {
                    assert(pb[a] == pr[a - 1] && pb[b] == pr[b - 1]);
                }
            }
        }
        lemma_pending_done(procs, done, i, n as int);
        vstd::seq_lib::lemma_multiset_commutative(seq![bi], pr);
        assert(seq![bi].to_multiset() =~= Seq::<int>::empty().push(bi).to_multiset());
        let pall = pending_bursts(procs, done, n as int);
        assert(pall.remove(bi).insert(bi) =~= pall);
    }
}

/// The waiting times of jobs run back to back add up to their back-to-back waiting.
proof fn lemma_prefix_waits(a: Seq<int>)
    ensures
        sum(Seq::new(a.len(), |j: int| sum(a.take(j)))) == back_to_back_wait(a),
    decreases a.len(),
{
    if a.len() > 0 {
        let d = a.drop_last();
        lemma_prefix_waits(d);
        assert(Seq::new(a.len(), |j: int| sum(a.take(j))).drop_last() =~= Seq::new(d.len(), |j: int| sum(d.take(j)))) by {
            assert forall|j: int| 0 <= j < d.len() implies a.take(j) =~= d.take(j) by {}
        }
        assert(a.take(d.len() as int) =~= d);
    }
}

/// When all processes arrive together, no order of running them back to back waits less
/// in total than SJF: SJF minimizes the average waiting time.
pub proof fn lemma_sjf_waits_least(procs: Seq<Process>, a: Seq<int>)
    requires
        all_at_zero(procs),
        np_keys_ok(procs, false),
        np_finish(procs, false) <= u64::MAX,
        a.to_multiset() == bursts(procs).to_multiset(),
    ensures
        sum(np_waits(procs, false)) <= back_to_back_wait(a),
{
    let n = procs.len();
    let done = Seq::new(n, |i: int| false);
    crate::util::lemma_count_false_all(n);
    lemma_sjf_schedule(procs, done, 0, n);
    lemma_np_schedule_monotone(procs, false, done, 0, n);
    let sched = np_full(procs, false);
    let pb = run_bursts(procs, sched);
    lemma_pending_all(procs, n as int);
    assert(bursts(procs).take(n as int) =~= bursts(procs));
    assert(np_waits(procs, false) =~= Seq::new(pb.len(), |j: int| sum(pb.take(j)))) by {
        assert forall|j: int| 0 <= j < pb.len() implies np_waits(procs, false)[j] == sum(pb.take(j)) by {
            assert(sched[j].1 <= sched[j].2 <= sched[n - 1].2);
            assert(procs[sched[j].0].arrival_time == 0);
        }
    }
    lemma_prefix_waits(pb);
    lemma_ascending_waits_least(pb, a);
}

proof fn lemma_map_multiset(s: Seq<usize>, t: Seq<usize>, f: spec_fn(usize) -> int)
    requires
        s.to_multiset() == t.to_multiset(),
    ensures
        s.map_values(f).to_multiset() == t.map_values(f).to_multiset(),
    decreases s.len(),
{
    broadcast use vstd::seq_lib::group_to_multiset_ensures;
    s.to_multiset_ensures();
    t.to_multiset_ensures();
    if s.len() == 0 {
        assert(t.len() == 0);
        assert(s.map_values(f) =~= t.map_values(f));
    } else {
        let x = s.last();
        let d = s.drop_last();
        assert(d.push(x) =~= s);
        assert(t.to_multiset().count(x) > 0);
        assert(t.contains(x));
        let p = choose|p: int| 0 <= p < t.len() && t[p] == x;
        assert(t.remove(p).to_multiset() =~= d.to_multiset());
        lemma_map_multiset(d, t.remove(p), f);
        assert(s.map_values(f) =~= d.map_values(f).push(f(x)));
        assert(t.remove(p).map_values(f) =~= t.map_values(f).remove(p));
        assert(t.map_values(f)[p] == f(x));
        let tm = t.map_values(f).to_multiset();
        assert(tm.remove(f(x)).insert(f(x)) =~= tm) by {
            assert(t.map_values(f).contains(f(x)));
        }
    }
}

/// FCFS on processes that all arrive together runs them back to back in arrival order.
proof fn lemma_fcfs_back_to_back(procs: Seq<Process>, k: nat)
    requires
        all_at_zero(procs),
        procs.len() <= usize::MAX,
        k <= procs.len(),
    ensures
        fcfs_clock(procs, arrival_order(procs), k) == sum(arrival_order(procs).take(k as int).map_values(|i: usize| procs[i as int].burst_time as int)),
    decreases k,
{
    let rank = arrival_order(procs);
    let f = |i: usize| procs[i as int].burst_time as int;
    lemma_arrival_order_perm(procs);
    if k > 0 {
        lemma_fcfs_back_to_back(procs, (k - 1) as nat);
        assert(rank.take(k as int).map_values(f).drop_last() =~= rank.take(k - 1).map_values(f));
        assert(procs[rank[k - 1] as int].arrival_time == 0);
        lemma_sum_nonneg(rank.take(k - 1).map_values(f));
    } else {
        assert(rank.take(0).map_values(f) =~= Seq::<int>::empty());
    }
}

/// When all processes arrive together, SJF waits in total no longer than FCFS.
pub proof fn lemma_sjf_beats_fcfs(procs: Seq<Process>)
    requires
        procs.len() <= usize::MAX,
        all_at_zero(procs),
        np_keys_ok(procs, false),
        total_burst(procs) <= u64::MAX,
    ensures
        sum(np_waits(procs, false)) <= sum(fcfs_waits(procs)),
{
    let n = procs.len();
    let rank = arrival_order(procs);
    let f = |i: usize| procs[i as int].burst_time as int;
    lemma_np_total(procs, false);
    lemma_fcfs_total(procs);
    lemma_arrival_order_perm(procs);
    let rb = rank.map_values(f);
    lemma_arrival_le_total(procs);
    index_seq(n).lemma_sort_by_ensures(arrival_le(procs));
    lemma_map_multiset(rank, index_seq(n), f);
    assert(index_seq(n).map_values(f) =~= bursts(procs));
    assert(fcfs_waits(procs) =~= Seq::new(rb.len(), |j: int| sum(rb.take(j)))) by {
        assert forall|j: int| 0 <= j < n implies fcfs_waits(procs)[j] == sum(rb.take(j)) by {
            lemma_fcfs_back_to_back(procs, j as nat);
            assert(rank.take(j).map_values(f) =~= rb.take(j));
            lemma_fcfs_clock_monotone(procs, rank, j as nat, n);
            assert(procs[rank[j] as int].arrival_time == 0);
            lemma_sum_nonneg(rb.take(j));
        }
    }
    lemma_prefix_waits(rb);
    lemma_sjf_waits_least(procs, rb);
}

} // verus!
