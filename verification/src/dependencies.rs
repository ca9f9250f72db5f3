use vstd::prelude::*;
use crate::agent_scheduler::{AgentTask, AgentScheduleResult, duration_sum, reports_order, report_order};
use crate::deadlock::rows;
use crate::util::{sum, lemma_sum_update, lemma_sum_nonneg};
use crate::feedback::usizes;

verus! {

/// Index of the first task at or after `j` whose id is `id`, or -1.
pub open spec fn task_index(tasks: Seq<AgentTask>, id: Seq<char>, j: int) -> int
    decreases tasks.len() - j,
{
    if j < 0 || j >= tasks.len() {
        -1
    } else if tasks[j].id@ == id {
        j
    } else {
        task_index(tasks, id, j + 1)
    }
}

proof fn lemma_task_index(tasks: Seq<AgentTask>, id: Seq<char>, j: int)
    requires
        0 <= j,
    ensures
        -1 <= task_index(tasks, id, j) < tasks.len(),
        task_index(tasks, id, j) >= 0 ==> j <= task_index(tasks, id, j) && tasks[task_index(tasks, id, j)].id@ == id,
        task_index(tasks, id, j) < 0 ==> forall|k: int| j <= k < tasks.len() ==> #[trigger] tasks[k].id@ != id,
    decreases tasks.len() - j,
{
    if j < tasks.len() && tasks[j].id@ != id {
        lemma_task_index(tasks, id, j + 1);
    }
}

/// The (dependency, dependent) pairs from the first `d` dependencies of task `i`; an id
/// that names no task is skipped, one that names several means the first.
pub open spec fn task_pairs(tasks: Seq<AgentTask>, i: int, d: int) -> Seq<(usize, usize)>
    decreases d,
{
    if d <= 0 {
        Seq::empty()
    } else {
        let j = task_index(tasks, tasks[i].dependencies@[d - 1]@, 0);
        task_pairs(tasks, i, d - 1) + if j >= 0 { seq![(j as usize, i as usize)] } else { Seq::empty() }
    }
}

/// The pairs from the first `i` tasks.
pub open spec fn dep_pairs(tasks: Seq<AgentTask>, i: int) -> Seq<(usize, usize)>
    decreases i,
{
    if i <= 0 {
        Seq::empty()
    } else {
        dep_pairs(tasks, i - 1) + task_pairs(tasks, i - 1, tasks[i - 1].dependencies@.len() as int)
    }
}

/// Successor lists of `n` nodes built from `pairs` in order.
pub open spec fn successors(n: nat, pairs: Seq<(usize, usize)>) -> Seq<Seq<usize>>
    decreases pairs.len(),
{
    if pairs.len() == 0 {
        Seq::new(n, |s: int| Seq::<usize>::empty())
    } else {
        let a = successors(n, pairs.drop_last());
        let j = pairs.last().0 as int;
        a.update(j, a[j].push(pairs.last().1))
    }
}

/// The dependency graph: an edge from each task to each task that depends on it.
pub open spec fn dep_graph(tasks: Seq<AgentTask>) -> Seq<Seq<usize>> {
    successors(tasks.len(), dep_pairs(tasks, tasks.len() as int))
}

/// Occurrences of `x` in `row`.
pub open spec fn count_of(row: Seq<usize>, x: usize) -> nat
    decreases row.len(),
{
    if row.len() == 0 {
        0
    } else {
        count_of(row.drop_last(), x) + if row.last() == x { 1nat } else { 0nat }
    }
}

/// Edges into `x` from nodes not marked in `popped`.
pub open spec fn incoming(adj: Seq<Seq<usize>>, popped: Seq<bool>, x: usize) -> int {
    sum(Seq::new(adj.len(), |s: int| if popped[s] { 0 } else { count_of(adj[s], x) as int }))
}

/// No node marked.
pub open spec fn none_popped(n: nat) -> Seq<bool> {
    Seq::new(n, |s: int| false)
}

proof fn lemma_count_push(row: Seq<usize>, y: usize, x: usize)
    ensures
        count_of(row.push(y), x) == count_of(row, x) + if y == x { 1nat } else { 0nat },
{
    assert(row.push(y).drop_last() =~= row);
}

/// Adding an edge `j -> i` adds one edge into `i` and none into any other node.
proof fn lemma_incoming_add(adj: Seq<Seq<usize>>, popped: Seq<bool>, j: int, i: usize, x: usize)
    requires
        0 <= j < adj.len(),
        popped.len() == adj.len(),
        !popped[j],
    ensures
        incoming(adj.update(j, adj[j].push(i)), popped, x) == incoming(adj, popped, x) + if i == x { 1int } else { 0int },
{
    let a2 = adj.update(j, adj[j].push(i));
    let before = Seq::new(adj.len(), |s: int| if popped[s] { 0 } else { count_of(adj[s], x) as int });
    let after = Seq::new(a2.len(), |s: int| if popped[s] { 0 } else { count_of(a2[s], x) as int });
    lemma_count_push(adj[j], i, x);
    assert(after =~= before.update(j, count_of(adj[j].push(i), x) as int));
    lemma_sum_update(before, j, count_of(adj[j].push(i), x) as int);
}

/// Position of the first task whose id is `id`.
fn find_task(tasks: &[AgentTask], id: &String) -> (r: Option<usize>)
    ensures
        match r {
            Some(j) => task_index(tasks@, id@, 0) == j,
            None => task_index(tasks@, id@, 0) < 0,
        },
{
    let mut j: usize = 0;
    while j < tasks.len()
        invariant
            j <= tasks@.len(),
            task_index(tasks@, id@, 0) == task_index(tasks@, id@, j as int),
        decreases tasks@.len() - j,
    {
        if tasks[j].id == *id {
            return Some(j);
        }
        j = j + 1;
    }
    None
}

/// Every successor is one of the first `bound` nodes.
pub open spec fn targets_below(adj: Seq<Seq<usize>>, bound: int) -> bool {
    forall|s: int, k: int| 0 <= s < adj.len() && 0 <= k < adj[s].len() ==> #[trigger] adj[s][k] < bound
}

/// The dependency graph and the number of edges into each task.
fn dependency_graph(tasks: &[AgentTask]) -> (res: (Vec<Vec<usize>>, Vec<usize>))
    ensures
        rows(res.0@) == dep_graph(tasks@),
        dep_graph(tasks@).len() == tasks@.len(),
        targets_below(dep_graph(tasks@), tasks@.len() as int),
        res.1@.len() == tasks@.len(),
        forall|x: int| 0 <= x < tasks@.len() ==> #[trigger] res.1@[x] == incoming(dep_graph(tasks@), none_popped(tasks@.len()), x as usize),
{
    let n = tasks.len();
    let ghost none = none_popped(n as nat);
    let mut adj: Vec<Vec<usize>> = Vec::new();
    let mut u: usize = 0;
    while u < n
        invariant
            u <= n,
            rows(adj@) =~= Seq::new(u as nat, |s: int| Seq::<usize>::empty()),
        decreases n - u,
    {
        let ghost before = adj@;
        adj.push(Vec::new());
        proof {
            assert(rows(adj@) =~= rows(before).push(Seq::<usize>::empty()));
        }
        u = u + 1;
    }
    proof {
        assert forall|x: usize| #[trigger] incoming(rows(adj@), none, x) == 0 by {
            assert(Seq::new(n as nat, |s: int| if none[s] { 0 } else { count_of(rows(adj@)[s], x) as int }) =~= Seq::new(n as nat, |s: int| 0int));
            crate::agent_scheduler::lemma_sum_zeros(n as nat);
        }
    }
    let mut indeg: Vec<usize> = Vec::new();
    let mut i: usize = 0;
    while i < n
        invariant
            i <= n,
            n == tasks@.len(),
            none == none_popped(n as nat),
            rows(adj@) == successors(n as nat, dep_pairs(tasks@, i as int)),
            rows(adj@).len() == n,
            targets_below(rows(adj@), i as int),
            indeg@.len() == i,
            forall|x: int| 0 <= x < i ==> #[trigger] indeg@[x] == incoming(rows(adj@), none, x as usize),
            forall|x: usize| i <= x ==> #[trigger] incoming(rows(adj@), none, x) == 0,
        decreases n - i,
    {
        let deps = &tasks[i].dependencies;
        let mut cnt: usize = 0;
        let mut d: usize = 0;
        proof {
            assert(dep_pairs(tasks@, i as int) + task_pairs(tasks@, i as int, 0) =~= dep_pairs(tasks@, i as int));
        }
        while d < deps.len()
            invariant
                i < n,
                n == tasks@.len(),
                d <= deps@.len(),
                deps@ == tasks@[i as int].dependencies@,
                none == none_popped(n as nat),
                rows(adj@) == successors(n as nat, dep_pairs(tasks@, i as int) + task_pairs(tasks@, i as int, d as int)),
                rows(adj@).len() == n,
                targets_below(rows(adj@), i + 1),
                indeg@.len() == i,
                cnt <= d,
                forall|x: int| 0 <= x < i ==> #[trigger] indeg@[x] == incoming(rows(adj@), none, x as usize),
                incoming(rows(adj@), none, i) == cnt,
                forall|x: usize| i < x ==> #[trigger] incoming(rows(adj@), none, x) == 0,
            decreases deps@.len() - d,
        {
            let found = find_task(tasks, &deps[d]);
            proof {
                lemma_task_index(tasks@, deps@[d as int]@, 0);
            }
            let ghost pre = dep_pairs(tasks@, i as int) + task_pairs(tasks@, i as int, d as int);
            match found {
                Some(j) => {
                    let ghost a0 = rows(adj@);
                    let mut row = adj[j].clone();
                    proof {
                        assert(row@ =~= adj@[j as int]@);
                    }
                    row.push(i);
                    adj.set(j, row);
                    cnt = cnt + 1;
                    proof {
                        let post = pre.push((j, i));
                        assert(dep_pairs(tasks@, i as int) + task_pairs(tasks@, i as int, d + 1) =~= post);
                        assert(post.drop_last() =~= pre);
                        assert(rows(adj@) =~= a0.update(j as int, a0[j as int].push(i)));
                        assert forall|x: usize| #[trigger] incoming(rows(adj@), none, x) == incoming(a0, none, x) + if i == x { 1int } else { 0int } by {
                            lemma_incoming_add(a0, none, j as int, i, x);
                        }
                        assert forall|s: int, k: int| 0 <= s < rows(adj@).len() && 0 <= k < rows(adj@)[s].len() implies #[trigger] rows(adj@)[s][k] < i + 1 by {
                            if s == j && k == a0[s].len() {
                            } else {
                                assert(rows(adj@)[s][k] == a0[s][k]);
                            }
                        }
                    }
                },
                None => {
                    proof {
                        assert(dep_pairs(tasks@, i as int) + task_pairs(tasks@, i as int, d + 1) =~= pre);
                    }
                },
            }
            d = d + 1;
        }
        indeg.push(cnt);
        proof {
            assert(dep_pairs(tasks@, i + 1) =~= dep_pairs(tasks@, i as int) + task_pairs(tasks@, i as int, deps@.len() as int));
        }
        i = i + 1;
    }
    (adj, indeg)
}

/// Task `a` goes before task `b`: lower priority number, then shorter duration.
pub open spec fn key_lt(tasks: Seq<AgentTask>, a: usize, b: usize) -> bool {
    let (x, y) = (tasks[a as int], tasks[b as int]);
    x.priority < y.priority || (x.priority == y.priority && x.estimated_duration_ms < y.estimated_duration_ms)
}

/// Position in `ready[0..k]` of the first task with the least key.
pub open spec fn first_least(tasks: Seq<AgentTask>, ready: Seq<usize>, k: int) -> int
    decreases k,
{
    if k <= 1 {
        0
    } else {
        let m = first_least(tasks, ready, k - 1);
        if key_lt(tasks, ready[k - 1], ready[m]) {
            k - 1
        } else {
            m
        }
    }
}

/// The successors in `row[0..k]` whose last remaining incoming edge is the one looked at,
/// in the order looked at.
pub open spec fn released(row: Seq<usize>, indeg: Seq<int>, k: int) -> Seq<usize>
    decreases k,
{
    if k <= 0 {
        Seq::empty()
    } else {
        let y = row[k - 1];
        released(row, indeg, k - 1) + if count_of(row.take(k), y) == indeg[y as int] { seq![y] } else { Seq::empty() }
    }
}

/// Kahn's algorithm: remaining incoming edges per task, the ready tasks in the order they
/// became ready, and the order produced so far.
pub struct KahnState {
    pub indeg: Seq<int>,
    pub ready: Seq<usize>,
    pub order: Seq<usize>,
}

/// One step: the first ready task with the least key is scheduled, and its successors
/// that have no other incoming edge left become ready.
pub open spec fn kahn_step(tasks: Seq<AgentTask>, adj: Seq<Seq<usize>>, s: KahnState) -> KahnState {
    let p = first_least(tasks, s.ready, s.ready.len() as int);
    let x = s.ready[p];
    let row = adj[x as int];
    KahnState {
        indeg: Seq::new(s.indeg.len(), |y: int| s.indeg[y] - count_of(row, y as usize)),
        ready: s.ready.remove(p) + released(row, s.indeg, row.len() as int),
        order: s.order.push(x),
    }
}

/// At most `fuel` steps, stopping when nothing is ready.
pub open spec fn kahn_run(tasks: Seq<AgentTask>, adj: Seq<Seq<usize>>, s: KahnState, fuel: nat) -> KahnState
    decreases fuel,
{
    if fuel == 0 || s.ready.len() == 0 {
        s
    } else {
        kahn_run(tasks, adj, kahn_step(tasks, adj, s), (fuel - 1) as nat)
    }
}

/// The tasks among `0..k` with no incoming edge, in increasing order.
pub open spec fn zero_indeg(indeg: Seq<int>, k: int) -> Seq<usize>
    decreases k,
{
    if k <= 0 {
        Seq::empty()
    } else {
        zero_indeg(indeg, k - 1) + if indeg[k - 1] == 0 { seq![(k - 1) as usize] } else { Seq::empty() }
    }
}

/// The initial state for the graph `adj`.
pub open spec fn kahn_start(adj: Seq<Seq<usize>>) -> KahnState {
    let indeg = Seq::new(adj.len(), |x: int| incoming(adj, none_popped(adj.len()), x as usize));
    KahnState { indeg, ready: zero_indeg(indeg, adj.len() as int), order: Seq::empty() }
}

/// The order in which the tasks are scheduled.
pub open spec fn dep_order(tasks: Seq<AgentTask>) -> Seq<usize> {
    kahn_run(tasks, dep_graph(tasks), kahn_start(dep_graph(tasks)), tasks.len()).order
}

/// Which tasks are in `order`.
pub open spec fn popped(n: nat, order: Seq<usize>) -> Seq<bool> {
    Seq::new(n, |s: int| order.contains(s as usize))
}

/// Every source of an edge into `x` is in `done`.
pub open spec fn sources_in(adj: Seq<Seq<usize>>, x: usize, done: Seq<usize>) -> bool {
    forall|s: int| 0 <= s < adj.len() && count_of(#[trigger] adj[s], x) > 0 ==> done.contains(s as usize)
}

/// What every state of the algorithm keeps: tasks in range and never twice; each task's
/// count is its incoming edges from unscheduled tasks; a task is ready or scheduled
/// exactly when that count is 0; and every scheduled task came after all its sources.
pub open spec fn kahn_inv(n: nat, adj: Seq<Seq<usize>>, s: KahnState) -> bool {
    &&& adj.len() == n <= usize::MAX
    &&& targets_below(adj, n as int)
    &&& s.indeg.len() == n
    &&& forall|k: int| 0 <= k < s.ready.len() ==> #[trigger] s.ready[k] < n
    &&& forall|k: int| 0 <= k < s.order.len() ==> #[trigger] s.order[k] < n
    &&& s.ready.no_duplicates()
    &&& s.order.no_duplicates()
    &&& forall|x: usize| #[trigger] s.ready.contains(x) ==> !s.order.contains(x)
    &&& forall|x: int| 0 <= x < n ==> #[trigger] s.indeg[x] == incoming(adj, popped(n, s.order), x as usize)
    &&& forall|x: int| 0 <= x < n ==> (s.ready.contains(x as usize) || s.order.contains(x as usize)) == (#[trigger] s.indeg[x] == 0)
    &&& forall|k: int| 0 <= k < s.order.len() ==> sources_in(adj, #[trigger] s.order[k], s.order.take(k))
}

proof fn lemma_count_take(row: Seq<usize>, k: int, y: usize)
    requires
        0 <= k < row.len(),
    ensures
        count_of(row.take(k + 1), y) == count_of(row.take(k), y) + if row[k] == y { 1nat } else { 0nat },
{
    assert(row.take(k + 1).drop_last() =~= row.take(k));
}

proof fn lemma_count_prefix(row: Seq<usize>, k: int, y: usize)
    requires
        0 <= k <= row.len(),
    ensures
        count_of(row.take(k), y) <= count_of(row, y),
    decreases row.len() - k,
{
    if k < row.len() {
        lemma_count_take(row, k, y);
        lemma_count_prefix(row, k + 1, y);
    } else {
        assert(row.take(k) =~= row);
    }
}

proof fn lemma_count_contains(row: Seq<usize>, y: usize)
    ensures
        count_of(row, y) > 0 <==> row.contains(y),
    decreases row.len(),
{
    if row.len() > 0 {
        lemma_count_contains(row.drop_last(), y);
        if row.drop_last().contains(y) {
            let k = choose|k: int| 0 <= k < row.drop_last().len() && row.drop_last()[k] == y;
            assert(row[k] == y);
        }
        if row.contains(y) && row.last() != y {
            let k = choose|k: int| 0 <= k < row.len() && row[k] == y;
            assert(row.drop_last()[k] == y);
        }
        if row.last() == y {
            assert(row[row.len() - 1] == y);
        }
    }
}

/// Marking `x` as scheduled removes its edges from every count.
proof fn lemma_incoming_pop(adj: Seq<Seq<usize>>, done: Seq<bool>, x: int, y: usize)
    requires
        0 <= x < adj.len(),
        done.len() == adj.len(),
        !done[x],
    ensures
        incoming(adj, done.update(x, true), y) == incoming(adj, done, y) - count_of(adj[x], y),
{
    let before = Seq::new(adj.len(), |s: int| if done[s] { 0 } else { count_of(adj[s], y) as int });
    let after = Seq::new(adj.len(), |s: int| if done.update(x, true)[s] { 0 } else { count_of(adj[s], y) as int });
    assert(after =~= before.update(x, 0));
    lemma_sum_update(before, x, 0);
}

/// The count into `y` covers the edges from each unscheduled task; when it is 0 no
/// unscheduled task has an edge into `y`.
proof fn lemma_incoming_covers(adj: Seq<Seq<usize>>, done: Seq<bool>, x: int, y: usize)
    requires
        0 <= x < adj.len(),
        done.len() == adj.len(),
        !done[x],
    ensures
        incoming(adj, done, y) >= count_of(adj[x], y),
        incoming(adj, done, y) == 0 ==> count_of(adj[x], y) == 0,
{
    let v = Seq::new(adj.len(), |s: int| if done[s] { 0 } else { count_of(adj[s], y) as int });
    lemma_sum_update(v, x, 0);
    assert forall|j: int| 0 <= j < v.len() implies v.update(x, 0)[j] >= 0 by {}
    lemma_sum_nonneg(v.update(x, 0));
}

proof fn lemma_released(row: Seq<usize>, indeg: Seq<int>, k: int)
    requires
        0 <= k <= row.len(),
        forall|i: int| 0 <= i < row.len() ==> #[trigger] row[i] < indeg.len(),
        forall|y: usize| y < indeg.len() ==> #[trigger] indeg[y as int] >= count_of(row, y),
    ensures
        released(row, indeg, k).no_duplicates(),
        forall|y: usize|
            #[trigger] released(row, indeg, k).contains(y) <==> y < indeg.len() && indeg[y as int] >= 1 && count_of(row.take(k), y) == indeg[y as int],
    decreases k,
{
    if k == 0 {
        assert forall|y: usize| #[trigger] released(row, indeg, k).contains(y) <==> y < indeg.len() && indeg[y as int] >= 1 && count_of(row.take(k), y) == indeg[y as int] by {
            assert(row.take(0) =~= Seq::<usize>::empty());
        }
    } else {
        lemma_released(row, indeg, k - 1);
        let z = row[k - 1];
        let pre = released(row, indeg, k - 1);
        let r = released(row, indeg, k);
        assert(z < indeg.len());
        lemma_count_take(row, k - 1, z);
        lemma_count_prefix(row, k, z);
        assert(!pre.contains(z));
        assert forall|y: usize| #[trigger] r.contains(y) <==> y < indeg.len() && indeg[y as int] >= 1 && count_of(row.take(k), y) == indeg[y as int] by {
            lemma_count_take(row, k - 1, y);
            if r.contains(y) && y != z {
                let i = choose|i: int| 0 <= i < r.len() && r[i] == y;
                assert(pre[i] == y);
            }
            if pre.contains(y) {
                let i = choose|i: int| 0 <= i < pre.len() && pre[i] == y;
                assert(r[i] == y);
            }
            if y == z && count_of(row.take(k), y) == indeg[y as int] {
                assert(r[pre.len() as int] == y);
            }
        }
    }
}

proof fn lemma_first_least(tasks: Seq<AgentTask>, ready: Seq<usize>, k: int)
    requires
        1 <= k,
    ensures
        0 <= first_least(tasks, ready, k) < k,
    decreases k,
{
    if k > 1 {
        lemma_first_least(tasks, ready, k - 1);
    }
}

proof fn lemma_remove_contains(v: Seq<usize>, p: int)
    requires
        0 <= p < v.len(),
        v.no_duplicates(),
    ensures
        v.remove(p).no_duplicates(),
        forall|z: usize| #[trigger] v.remove(p).contains(z) <==> v.contains(z) && z != v[p],
{
    let r = v.remove(p);
    assert(r.len() == v.len() - 1);
    assert forall|i: int| 0 <= i < r.len() implies #[trigger] r[i] == if i < p { v[i] } else { v[i + 1] } by {}
    assert forall|i: int, j: int| 0 <= i < r.len() && 0 <= j < r.len() && i != j implies r[i] != r[j] by {
        let a = if i < p { i } else { i + 1 };
        let b = if j < p { j } else { j + 1 };
        assert(r[i] == v[a] && r[j] == v[b]);
    }
    assert forall|z: usize| #[trigger] r.contains(z) <==> v.contains(z) && z != v[p] by {
        if r.contains(z) {
            let i = choose|i: int| 0 <= i < r.len() && r[i] == z;
            let a = if i < p { i } else { i + 1 };
            assert(v[a] == z);
        }
        if v.contains(z) && z != v[p] {
            let a = choose|a: int| 0 <= a < v.len() && v[a] == z;
            if a < p {
                assert(r[a] == z);
            } else {
                assert(r[a - 1] == z);
            }
        }
    }
}

proof fn lemma_kahn_step(tasks: Seq<AgentTask>, n: nat, adj: Seq<Seq<usize>>, s: KahnState)
    requires
        kahn_inv(n, adj, s),
        s.ready.len() > 0,
    ensures
        kahn_inv(n, adj, kahn_step(tasks, adj, s)),
        kahn_step(tasks, adj, s).order.len() == s.order.len() + 1,
{
    let p = first_least(tasks, s.ready, s.ready.len() as int);
    lemma_first_least(tasks, s.ready, s.ready.len() as int);
    let x = s.ready[p];
    let row = adj[x as int];
    let t = kahn_step(tasks, adj, s);
    let done = popped(n, s.order);
    assert(s.ready.contains(x));
    assert(!s.order.contains(x));
    assert(popped(n, t.order) =~= done.update(x as int, true)) by {
        assert forall|q: int| 0 <= q < n implies #[trigger] popped(n, t.order)[q] == done.update(x as int, true)[q] by {
            if q == x {
                assert(t.order[s.order.len() as int] == x);
            } else {
                if t.order.contains(q as usize) {
                    let i = choose|i: int| 0 <= i < t.order.len() && t.order[i] == q as usize;
                    assert(s.order[i] == q as usize);
                }
                if s.order.contains(q as usize) {
                    let i = choose|i: int| 0 <= i < s.order.len() && s.order[i] == q as usize;
                    assert(t.order[i] == q as usize);
                }
            }
        }
    }
    assert(s.indeg[x as int] == 0);
    assert forall|y: usize| y < n implies #[trigger] s.indeg[y as int] >= count_of(row, y) by {
        lemma_incoming_covers(adj, done, x as int, y);
    }
    assert forall|i: int| 0 <= i < row.len() implies #[trigger] row[i] < s.indeg.len() by {
        assert(adj[x as int][i] < n);
    }
    lemma_released(row, s.indeg, row.len() as int);
    assert(row.take(row.len() as int) =~= row);
    let rel = released(row, s.indeg, row.len() as int);
    let rem = s.ready.remove(p);
    lemma_remove_contains(s.ready, p);
    lemma_incoming_covers(adj, done, x as int, x);
    assert forall|y: int| 0 <= y < n implies #[trigger] t.indeg[y] == incoming(adj, popped(n, t.order), y as usize) by {
        lemma_incoming_pop(adj, done, x as int, y as usize);
    }
    assert forall|z: usize| #[trigger] t.ready.contains(z) <==> rem.contains(z) || rel.contains(z) by {
        if t.ready.contains(z) {
            let i = choose|i: int| 0 <= i < t.ready.len() && t.ready[i] == z;
            if i < rem.len() {
                assert(rem[i] == z);
            } else {
                assert(rel[i - rem.len()] == z);
            }
        }
        if rem.contains(z) {
            let i = choose|i: int| 0 <= i < rem.len() && rem[i] == z;
            assert(t.ready[i] == z);
        }
        if rel.contains(z) {
            let i = choose|i: int| 0 <= i < rel.len() && rel[i] == z;
            assert(t.ready[rem.len() + i] == z);
        }
    }
    assert forall|z: usize| #[trigger] t.order.contains(z) <==> s.order.contains(z) || z == x by {
        if t.order.contains(z) && z != x {
            let i = choose|i: int| 0 <= i < t.order.len() && t.order[i] == z;
            assert(s.order[i] == z);
        }
        if s.order.contains(z) {
            let i = choose|i: int| 0 <= i < s.order.len() && s.order[i] == z;
            assert(t.order[i] == z);
        }
        if z == x {
            assert(t.order[s.order.len() as int] == z);
        }
    }
    assert forall|k: int| 0 <= k < t.ready.len() implies #[trigger] t.ready[k] < n by {
        assert(t.ready.contains(t.ready[k]));
        if rem.contains(t.ready[k]) {
            let i = choose|i: int| 0 <= i < s.ready.len() && s.ready[i] == t.ready[k];
        }
    }
    assert forall|k: int| 0 <= k < t.order.len() implies #[trigger] t.order[k] < n by {
        if k < s.order.len() {
            assert(t.order[k] == s.order[k]);
        }
    }
    assert(t.ready.no_duplicates()) by {
        assert forall|i: int, j: int| 0 <= i < t.ready.len() && 0 <= j < t.ready.len() && i != j implies t.ready[i] != t.ready[j] by {
            let rl = rem.len() as int;
            if i < rl && j >= rl {
                assert(rem.contains(t.ready[i]));
                assert(rel.contains(t.ready[j]));
                assert(rel[j - rl] == t.ready[j]);
            } else if i >= rl && j < rl {
                assert(rem.contains(t.ready[j]));
                assert(rel[i - rl] == t.ready[i]);
                assert(rel.contains(t.ready[i]));
            } else if i < rl {
                assert(rem[i] == t.ready[i] && rem[j] == t.ready[j]);
            } else {
                assert(rel[i - rl] == t.ready[i] && rel[j - rl] == t.ready[j]);
            }
        }
    }
    assert(t.order.no_duplicates()) by {
        assert forall|i: int, j: int| 0 <= i < t.order.len() && 0 <= j < t.order.len() && i != j implies t.order[i] != t.order[j] by {
            if i == s.order.len() {
                assert(s.order.contains(t.order[j]));
            } else if j == s.order.len() {
                assert(s.order.contains(t.order[i]));
            }
        }
    }
    assert forall|z: usize| #[trigger] t.ready.contains(z) implies !t.order.contains(z) by {
        if rel.contains(z) {
            assert(s.indeg[z as int] >= 1);
        }
    }
    assert forall|y: int| 0 <= y < n implies (t.ready.contains(y as usize) || t.order.contains(y as usize)) == (#[trigger] t.indeg[y] == 0) by {
        let yu = y as usize;
        lemma_incoming_covers(adj, done, x as int, yu);
        if yu != x && (s.ready.contains(yu) || s.order.contains(yu)) {
            assert(s.indeg[y] == 0);
        }
    }
    assert forall|k: int| 0 <= k < t.order.len() implies sources_in(adj, #[trigger] t.order[k], t.order.take(k)) by {
        if k < s.order.len() {
            assert(t.order.take(k) =~= s.order.take(k));
            assert(t.order[k] == s.order[k]);
        } else {
            assert(t.order.take(k) =~= s.order);
            assert forall|q: int| 0 <= q < adj.len() && count_of(#[trigger] adj[q], x) > 0 implies s.order.contains(q as usize) by {
                if !done[q] {
                    lemma_incoming_covers(adj, done, q, x);
                }
            }
        }
    }
}

/// A list of distinct tasks below `n` that misses one of them is shorter than `n`.
proof fn lemma_room(n: nat, order: Seq<usize>, x: usize)
    requires
        n <= usize::MAX,
        order.no_duplicates(),
        forall|k: int| 0 <= k < order.len() ==> #[trigger] order[k] < n,
        x < n,
        !order.contains(x),
    ensures
        order.len() < n,
{
    let o2 = order.push(x);
    assert(o2.no_duplicates()) by {
        assert forall|i: int, j: int| 0 <= i < o2.len() && 0 <= j < o2.len() && i != j implies o2[i] != o2[j] by {
            if i == order.len() {
                assert(order.contains(o2[j]));
            } else if j == order.len() {
                assert(order.contains(o2[i]));
            }
        }
    }
    o2.unique_seq_to_set();
    let full = Set::new(|v: usize| v < n);
    crate::util::lemma_usize_range_finite_len(n as int);
    assert(o2.to_set().subset_of(full)) by {
        assert forall|v: usize| #[trigger] o2.to_set().contains(v) implies full.contains(v) by {
            let i = choose|i: int| 0 <= i < o2.len() && o2[i] == v;
            if i < order.len() {
                assert(order[i] < n);
            }
        }
    }
    vstd::set_lib::lemma_len_subset(o2.to_set(), full);
}

proof fn lemma_kahn_run(tasks: Seq<AgentTask>, n: nat, adj: Seq<Seq<usize>>, s: KahnState, fuel: nat)
    requires
        kahn_inv(n, adj, s),
        s.order.len() + fuel >= n,
    ensures
        kahn_inv(n, adj, kahn_run(tasks, adj, s, fuel)),
        kahn_run(tasks, adj, s, fuel).ready.len() == 0,
    decreases fuel,
{
    if s.ready.len() > 0 {
        if fuel == 0 {
            assert(s.ready.contains(s.ready[0]));
            lemma_room(n, s.order, s.ready[0]);
        } else {
            lemma_kahn_step(tasks, n, adj, s);
            lemma_kahn_run(tasks, n, adj, kahn_step(tasks, adj, s), (fuel - 1) as nat);
        }
    }
}

proof fn lemma_zero_indeg(indeg: Seq<int>, k: int)
    requires
        0 <= k <= indeg.len() <= usize::MAX,
    ensures
        zero_indeg(indeg, k).no_duplicates(),
        forall|j: int| 0 <= j < zero_indeg(indeg, k).len() ==> #[trigger] zero_indeg(indeg, k)[j] < k,
        forall|x: usize| #[trigger] zero_indeg(indeg, k).contains(x) <==> x < k && indeg[x as int] == 0,
    decreases k,
{
    if k > 0 {
        lemma_zero_indeg(indeg, k - 1);
        let pre = zero_indeg(indeg, k - 1);
        let z = zero_indeg(indeg, k);
        assert forall|j: int| 0 <= j < z.len() implies #[trigger] z[j] < k by {
            if j < pre.len() {
                assert(z[j] == pre[j]);
            }
        }
        assert forall|x: usize| #[trigger] z.contains(x) <==> x < k && indeg[x as int] == 0 by {
            if z.contains(x) {
                let j = choose|j: int| 0 <= j < z.len() && z[j] == x;
                if j < pre.len() {
                    assert(pre[j] == x);
                    assert(pre.contains(x));
                } else {
                    assert(indeg[k - 1] == 0);
                    assert(z[j] == (k - 1) as usize);
                    assert(x as int == k - 1);
                }
            }
            if x < k - 1 && indeg[x as int] == 0 {
                assert(pre.contains(x));
                let j = choose|j: int| 0 <= j < pre.len() && pre[j] == x;
                assert(z[j] == x);
            }
            if x == k - 1 && indeg[x as int] == 0 {
                assert(z[pre.len() as int] == x);
            }
        }
        assert(z.no_duplicates()) by {
            assert forall|i: int, j: int| 0 <= i < z.len() && 0 <= j < z.len() && i != j implies z[i] != z[j] by {
                if i < pre.len() && j < pre.len() {
                    assert(z[i] == pre[i] && z[j] == pre[j]);
                } else if i < pre.len() {
                    assert(z[i] == pre[i]);
                } else if j < pre.len() {
                    assert(z[j] == pre[j]);
                }
            }
        }
    }
}

proof fn lemma_kahn_start(n: nat, adj: Seq<Seq<usize>>)
    requires
        adj.len() == n <= usize::MAX,
        targets_below(adj, n as int),
    ensures
        kahn_inv(n, adj, kahn_start(adj)),
{
    let s = kahn_start(adj);
    lemma_zero_indeg(s.indeg, n as int);
    assert(popped(n, s.order) =~= none_popped(n));
}

fn key_less(tasks: &[AgentTask], a: usize, b: usize) -> (r: bool)
    requires
        a < tasks@.len(),
        b < tasks@.len(),
    ensures
        r == key_lt(tasks@, a, b),
{
    let (x, y) = (&tasks[a], &tasks[b]);
    x.priority < y.priority || (x.priority == y.priority && x.estimated_duration_ms < y.estimated_duration_ms)
}

/// Schedule tasks respecting dependencies (topological sort + SJF): Kahn's algorithm, which
/// each time schedules, among the tasks whose dependencies are all scheduled, the one with
/// the lowest priority number, then the shortest duration, then the earliest to have
/// become ready. A dependency on an id that names no task is ignored; tasks on a
/// dependency cycle, or after one, are left out. Completion times are the running sums of
/// the durations along the order.
pub fn schedule_with_dependencies(tasks: &[AgentTask]) -> (r: AgentScheduleResult)
    requires
        duration_sum(tasks@, dep_order(tasks@)) <= u64::MAX,
    ensures
        reports_order(tasks@, dep_order(tasks@), r),
        r.algorithm_used@ == "DependencyAware-SJF"@,
{
    let n = tasks.len();
    let (adj, mut indeg) = dependency_graph(tasks);
    let ghost g = dep_graph(tasks@);
    let ghost start = kahn_start(g);
    proof {
        assert(usizes(indeg@) =~= start.indeg);
    }
    let mut ready: Vec<usize> = Vec::new();
    let mut i: usize = 0;
    while i < n
        invariant
            i <= n,
            n == tasks@.len(),
            usizes(indeg@) == start.indeg,
            start.indeg.len() == n,
            ready@ == zero_indeg(start.indeg, i as int),
        decreases n - i,
    {
        if indeg[i] == 0 {
            ready.push(i);
        }
        i = i + 1;
    }
    let mut order: Vec<usize> = Vec::new();
    proof {
        lemma_kahn_start(n as nat, g);
        assert(order@ =~= Seq::<usize>::empty());
    }
    while ready.len() > 0
        invariant
            n == tasks@.len(),
            rows(adj@) == g,
            g == dep_graph(tasks@),
            start == kahn_start(g),
            kahn_inv(n as nat, g, KahnState { indeg: usizes(indeg@), ready: ready@, order: order@ }),
            order@.len() <= n,
            kahn_run(tasks@, g, KahnState { indeg: usizes(indeg@), ready: ready@, order: order@ }, (n - order@.len()) as nat)
                == kahn_run(tasks@, g, start, n as nat),
        decreases n - order@.len(),
    {
        let ghost cur = KahnState { indeg: usizes(indeg@), ready: ready@, order: order@ };
        proof {
            assert(ready@.contains(ready@[0]));
            lemma_room(n as nat, order@, ready@[0]);
            lemma_kahn_step(tasks@, n as nat, g, cur);
        }
        let mut p: usize = 0;
        let mut k: usize = 1;
        while k < ready.len()
            invariant
                1 <= k <= ready@.len(),
                ready@ == cur.ready,
                kahn_inv(n as nat, g, cur),
                n == tasks@.len(),
                p == first_least(tasks@, ready@, k as int),
                p < k,
            decreases ready@.len() - k,
        {
            let a = ready[k];
            let b = ready[p];
            if key_less(tasks, a, b) {
                p = k;
            }
            k = k + 1;
        }
        let x = ready.remove(p);
        order.push(x);
        let row = &adj[x];
        let ghost indeg0 = cur.indeg;
        let ghost ready0 = ready@;
        let ghost done = popped(n as nat, cur.order);
        proof {
            assert(row@ == g[x as int]);
            assert(cur.ready.contains(x));
            assert(!cur.order.contains(x));
            assert forall|y: usize| y < n implies #[trigger] indeg0[y as int] >= count_of(row@, y) by {
                lemma_incoming_covers(g, done, x as int, y);
            }
            assert(row@.take(0) =~= Seq::<usize>::empty());
        }
        let mut j: usize = 0;
        while j < row.len()
            invariant
                j <= row@.len(),
                n == tasks@.len(),
                x < n,
                row@ == g[x as int],
                targets_below(g, n as int),
                g.len() == n,
                indeg0.len() == n,
                indeg@.len() == n,
                forall|y: usize| y < n ==> #[trigger] indeg0[y as int] >= count_of(row@, y),
                forall|y: int| 0 <= y < n ==> #[trigger] usizes(indeg@)[y] == indeg0[y] - count_of(row@.take(j as int), y as usize),
                ready@ == ready0 + released(row@, indeg0, j as int),
            decreases row@.len() - j,
        {
            let y = row[j];
            proof {
                assert(g[x as int][j as int] < n);
                lemma_count_take(row@, j as int, y);
                lemma_count_prefix(row@, j + 1, y);
                assert(usizes(indeg@)[y as int] == indeg@[y as int]);
            }
            let ghost before = indeg@;
            indeg.set(y, indeg[y] - 1);
            proof {
                assert forall|z: int| 0 <= z < n implies #[trigger] usizes(indeg@)[z] == indeg0[z] - count_of(row@.take(j + 1), z as usize) by {
                    lemma_count_take(row@, j as int, z as usize);
                    assert(usizes(before)[z] == before[z]);
                }
            }
            if indeg[y] == 0 {
                ready.push(y);
            }
            proof {
                assert(usizes(indeg@)[y as int] == indeg@[y as int]);
                assert(released(row@, indeg0, j + 1) =~= released(row@, indeg0, j as int) + if count_of(row@.take(j + 1), y) == indeg0[y as int] { seq![y] } else { Seq::<usize>::empty() });
                assert(ready@ =~= ready0 + released(row@, indeg0, j + 1));
            }
            j = j + 1;
        }
        proof {
            assert(row@.take(j as int) =~= row@);
            let nxt = kahn_step(tasks@, g, cur);
            assert(usizes(indeg@) =~= nxt.indeg);
            assert(ready@ =~= nxt.ready);
            assert(order@ =~= nxt.order);
        }
    }
    proof {
        let cur = KahnState { indeg: usizes(indeg@), ready: ready@, order: order@ };
        assert(kahn_run(tasks@, g, cur, (n - order@.len()) as nat) == cur);
        assert forall|k: int| 0 <= k < order@.len() implies #[trigger] order@[k] < tasks@.len() by {
            assert(cur.order[k] < n);
        }
    }
    report_order(tasks, &order, "DependencyAware-SJF".to_owned())
}

/// Task `i` lists a dependency whose id first names task `j`.
pub open spec fn depends_on(tasks: Seq<AgentTask>, i: int, j: int) -> bool {
    exists|d: int| 0 <= d < tasks[i].dependencies@.len() && task_index(tasks, #[trigger] tasks[i].dependencies@[d]@, 0) == j
}

proof fn lemma_successors_contains(n: nat, pairs: Seq<(usize, usize)>, s: int, x: usize)
    requires
        0 <= s < n <= usize::MAX,
        forall|k: int| 0 <= k < pairs.len() ==> #[trigger] pairs[k].0 < n,
    ensures
        successors(n, pairs).len() == n,
        successors(n, pairs)[s].contains(x) <==> pairs.contains((s as usize, x)),
    decreases pairs.len(),
{
    if pairs.len() > 0 {
        let pre = pairs.drop_last();
        assert forall|k: int| 0 <= k < pre.len() implies #[trigger] pre[k].0 < n by {
            assert(pre[k] == pairs[k]);
        }
        lemma_successors_contains(n, pre, s, x);
        let a = successors(n, pre);
        let last = pairs.last();
        assert(pairs[pairs.len() - 1] == last);
        let row = successors(n, pairs)[s];
        if s == last.0 as int {
            assert(row =~= a[s].push(last.1));
        } else {
            assert(row == a[s]);
        }
        if row.contains(x) {
            let k = choose|k: int| 0 <= k < row.len() && row[k] == x;
            if s == last.0 as int && k == a[s].len() {
                assert(pairs[pairs.len() - 1] == (s as usize, x));
            } else {
                assert(a[s][k] == x);
                assert(pre.contains((s as usize, x)));
                let m = choose|m: int| 0 <= m < pre.len() && pre[m] == (s as usize, x);
                assert(pairs[m] == (s as usize, x));
            }
        }
        if pairs.contains((s as usize, x)) {
            let m = choose|m: int| 0 <= m < pairs.len() && pairs[m] == (s as usize, x);
            if m == pairs.len() - 1 {
                assert(row[a[s].len() as int] == x);
            } else {
                assert(pre[m] == (s as usize, x));
                assert(a[s].contains(x));
                let k = choose|k: int| 0 <= k < a[s].len() && a[s][k] == x;
                assert(row[k] == x);
            }
        }
    }
}

proof fn lemma_task_pairs(tasks: Seq<AgentTask>, i: int, dd: int, j: int, x: usize)
    requires
        0 <= i < tasks.len() <= usize::MAX,
        0 <= dd <= tasks[i].dependencies@.len(),
        0 <= j <= usize::MAX,
    ensures
        forall|k: int| 0 <= k < task_pairs(tasks, i, dd).len() ==> (#[trigger] task_pairs(tasks, i, dd)[k]).0 < tasks.len() && task_pairs(tasks, i, dd)[k].1 == i,
        task_pairs(tasks, i, dd).contains((j as usize, x)) <==> j < tasks.len() && x == i
            && exists|d: int| 0 <= d < dd && task_index(tasks, #[trigger] tasks[i].dependencies@[d]@, 0) == j,
    decreases dd,
{
    if dd > 0 {
        lemma_task_pairs(tasks, i, dd - 1, j, x);
        let pre = task_pairs(tasks, i, dd - 1);
        let tp = task_pairs(tasks, i, dd);
        let dep = tasks[i].dependencies@[dd - 1]@;
        let jj = task_index(tasks, dep, 0);
        lemma_task_index(tasks, dep, 0);
        assert forall|k: int| 0 <= k < tp.len() implies (#[trigger] tp[k]).0 < tasks.len() && tp[k].1 == i by {
            if k < pre.len() {
                assert(tp[k] == pre[k]);
            }
        }
        if tp.contains((j as usize, x)) {
            let k = choose|k: int| 0 <= k < tp.len() && tp[k] == (j as usize, x);
            if k < pre.len() {
                assert(pre[k] == tp[k]);
                assert(pre.contains((j as usize, x)));
                let d = choose|d: int| 0 <= d < dd - 1 && task_index(tasks, #[trigger] tasks[i].dependencies@[d]@, 0) == j;
            } else {
                assert(tp[k] == (jj as usize, i as usize));
                assert(task_index(tasks, tasks[i].dependencies@[dd - 1]@, 0) == j);
            }
        }
        if j < tasks.len() && x == i && exists|d: int| 0 <= d < dd && task_index(tasks, #[trigger] tasks[i].dependencies@[d]@, 0) == j {
            let d = choose|d: int| 0 <= d < dd && task_index(tasks, #[trigger] tasks[i].dependencies@[d]@, 0) == j;
            if d < dd - 1 {
                assert(pre.contains((j as usize, x)));
                let k = choose|k: int| 0 <= k < pre.len() && pre[k] == (j as usize, x);
                assert(tp[k] == (j as usize, x));
            } else {
                assert(tp[pre.len() as int] == (j as usize, x));
            }
        }
    }
}

proof fn lemma_dep_pairs(tasks: Seq<AgentTask>, m: int, j: int, x: usize)
    requires
        0 <= m <= tasks.len() <= usize::MAX,
        0 <= j <= usize::MAX,
    ensures
        forall|k: int| 0 <= k < dep_pairs(tasks, m).len() ==> (#[trigger] dep_pairs(tasks, m)[k]).0 < tasks.len(),
        dep_pairs(tasks, m).contains((j as usize, x)) <==> j < tasks.len() && x < m && depends_on(tasks, x as int, j),
    decreases m,
{
    if m > 0 {
        lemma_dep_pairs(tasks, m - 1, j, x);
        let i = m - 1;
        let pre = dep_pairs(tasks, m - 1);
        let dl = tasks[i].dependencies@.len() as int;
        let tp = task_pairs(tasks, i, dl);
        lemma_task_pairs(tasks, i, dl, j, x);
        let all = dep_pairs(tasks, m);
        assert(all =~= pre + tp);
        assert forall|k: int| 0 <= k < all.len() implies (#[trigger] all[k]).0 < tasks.len() by {
            if k < pre.len() {
                assert(all[k] == pre[k]);
            } else {
                assert(all[k] == tp[k - pre.len()]);
            }
        }
        if all.contains((j as usize, x)) {
            let k = choose|k: int| 0 <= k < all.len() && all[k] == (j as usize, x);
            if k < pre.len() {
                assert(pre[k] == all[k]);
                assert(pre.contains((j as usize, x)));
            } else {
                assert(tp[k - pre.len()] == all[k]);
                assert(tp.contains((j as usize, x)));
                let d = choose|d: int| 0 <= d < dl && task_index(tasks, #[trigger] tasks[i].dependencies@[d]@, 0) == j;
                assert(depends_on(tasks, x as int, j));
            }
        }
        if j < tasks.len() && x < m && depends_on(tasks, x as int, j) {
            if x < m - 1 {
                let k = choose|k: int| 0 <= k < pre.len() && pre[k] == (j as usize, x);
                assert(all[k] == (j as usize, x));
            } else {
                let d = choose|d: int| 0 <= d < tasks[x as int].dependencies@.len() && task_index(tasks, #[trigger] tasks[x as int].dependencies@[d]@, 0) == j;
                assert(tp.contains((j as usize, x)));
                let k = choose|k: int| 0 <= k < tp.len() && tp[k] == (j as usize, x);
                assert(all[pre.len() + k] == (j as usize, x));
            }
        }
    }
}

/// An edge of the dependency graph runs from `j` to `x` exactly when task `x` depends on task `j`.
proof fn lemma_edge_iff(tasks: Seq<AgentTask>, j: int, x: usize)
    requires
        tasks.len() <= usize::MAX,
        0 <= j < tasks.len(),
    ensures
        dep_graph(tasks).len() == tasks.len(),
        count_of(dep_graph(tasks)[j], x) > 0 <==> x < tasks.len() && depends_on(tasks, x as int, j),
{
    let n = tasks.len();
    lemma_dep_pairs(tasks, n as int, j, x);
    lemma_successors_contains(n, dep_pairs(tasks, n as int), j, x);
    lemma_count_contains(dep_graph(tasks)[j], x);
}

/// The final state of the algorithm on `tasks` keeps the invariant and has nothing ready.
proof fn lemma_dep_final(tasks: Seq<AgentTask>)
    requires
        tasks.len() <= usize::MAX,
    ensures
        ({
            let f = kahn_run(tasks, dep_graph(tasks), kahn_start(dep_graph(tasks)), tasks.len());
            &&& kahn_inv(tasks.len(), dep_graph(tasks), f)
            &&& f.ready.len() == 0
        }),
{
    let n = tasks.len();
    let g = dep_graph(tasks);
    assert(g.len() == n) by {
        if n > 0 {
            lemma_edge_iff(tasks, 0, 0);
        }
    }
    assert(targets_below(g, n as int)) by {
        assert forall|s: int, k: int| 0 <= s < g.len() && 0 <= k < g[s].len() implies #[trigger] g[s][k] < n by {
            let x = g[s][k];
            assert(g[s].contains(x));
            lemma_count_contains(g[s], x);
            lemma_edge_iff(tasks, s, x);
        }
    }
    lemma_kahn_start(n, g);
    lemma_kahn_run(tasks, n, g, kahn_start(g), n);
}

/// The scheduled order names each task at most once, and every task in it comes after
/// all the tasks it depends on.
pub proof fn lemma_dependencies_respected(tasks: Seq<AgentTask>)
    requires
        tasks.len() <= usize::MAX,
    ensures
        dep_order(tasks).no_duplicates(),
        forall|k: int| 0 <= k < dep_order(tasks).len() ==> #[trigger] dep_order(tasks)[k] < tasks.len(),
        forall|k: int, j: int|
            0 <= k < dep_order(tasks).len() && 0 <= j < tasks.len() && #[trigger] depends_on(tasks, dep_order(tasks)[k] as int, j)
                ==> dep_order(tasks).take(k).contains(j as usize),
{
    lemma_dep_final(tasks);
    let o = dep_order(tasks);
    let g = dep_graph(tasks);
    assert forall|k: int, j: int|
        0 <= k < o.len() && 0 <= j < tasks.len() && #[trigger] depends_on(tasks, o[k] as int, j) implies o.take(k).contains(j as usize) by {
        lemma_edge_iff(tasks, j, o[k]);
        assert(sources_in(g, o[k], o.take(k)));
        assert(count_of(g[j], o[k]) > 0);
    }
}

proof fn lemma_sum_nonzero(v: Seq<int>)
    requires
        sum(v) != 0,
    ensures
        exists|i: int| 0 <= i < v.len() && v[i] != 0,
{
    if forall|i: int| 0 <= i < v.len() ==> v[i] == 0 {
        assert(v =~= Seq::new(v.len(), |i: int| 0int));
        crate::agent_scheduler::lemma_sum_zeros(v.len());
    }
}

/// When every task ranks above the tasks it depends on (so no dependency cycle exists),
/// every task is scheduled.
pub proof fn lemma_acyclic_all_scheduled(tasks: Seq<AgentTask>, rank: Seq<nat>)
    requires
        tasks.len() <= usize::MAX,
        rank.len() == tasks.len(),
        forall|i: int, j: int| 0 <= i < tasks.len() && 0 <= j < tasks.len() && #[trigger] depends_on(tasks, i, j) ==> rank[j] < rank[i],
    ensures
        dep_order(tasks).len() == tasks.len(),
{
    let n = tasks.len();
    lemma_dep_final(tasks);
    let f = kahn_run(tasks, dep_graph(tasks), kahn_start(dep_graph(tasks)), n);
    assert forall|x: usize| x < n implies #[trigger] f.order.contains(x) by {
        lemma_scheduled_below(tasks, rank, rank[x as int], x as int);
    }
    let full = Set::new(|v: usize| v < n);
    crate::util::lemma_usize_range_finite_len(n as int);
    f.order.unique_seq_to_set();
    assert(f.order.to_set() =~= full) by {
        assert forall|v: usize| #[trigger] full.contains(v) implies f.order.to_set().contains(v) by {
            assert(f.order.contains(v));
        }
    }
}

proof fn lemma_scheduled_below(tasks: Seq<AgentTask>, rank: Seq<nat>, v: nat, x: int)
    requires
        tasks.len() <= usize::MAX,
        rank.len() == tasks.len(),
        forall|i: int, j: int| 0 <= i < tasks.len() && 0 <= j < tasks.len() && #[trigger] depends_on(tasks, i, j) ==> rank[j] < rank[i],
        0 <= x < tasks.len(),
        rank[x] <= v,
    ensures
        kahn_run(tasks, dep_graph(tasks), kahn_start(dep_graph(tasks)), tasks.len()).order.contains(x as usize),
    decreases v,
{
    let n = tasks.len();
    let g = dep_graph(tasks);
    lemma_dep_final(tasks);
    let f = kahn_run(tasks, g, kahn_start(g), n);
    let done = popped(n, f.order);
    if !f.order.contains(x as usize) {
        assert(!f.ready.contains(x as usize));
        assert(f.indeg[x] != 0);
        let terms = Seq::new(g.len(), |s: int| if done[s] { 0 } else { count_of(g[s], x as usize) as int });
        lemma_sum_nonzero(terms);
        let s = choose|s: int| 0 <= s < terms.len() && terms[s] != 0;
        assert(!done[s]);
        assert(count_of(g[s], x as usize) > 0);
        lemma_edge_iff(tasks, s, x as usize);
        assert(depends_on(tasks, x, s));
        assert(rank[s] < rank[x]);
        lemma_scheduled_below(tasks, rank, (v - 1) as nat, s);
    }
}

/// The durations of all tasks added up.
pub open spec fn total_duration(tasks: Seq<AgentTask>) -> int {
    sum(Seq::new(tasks.len(), |i: int| tasks[i].estimated_duration_ms as int))
}

/// The durations of the tasks named in `order`, each counted where it is named.
spec fn chosen_durations(tasks: Seq<AgentTask>, order: Seq<usize>) -> Seq<int> {
    Seq::new(tasks.len(), |i: int| if order.contains(i as usize) { tasks[i].estimated_duration_ms as int } else { 0 })
}

proof fn lemma_distinct_durations(tasks: Seq<AgentTask>, order: Seq<usize>)
    requires
        tasks.len() <= usize::MAX,
        order.no_duplicates(),
        forall|k: int| 0 <= k < order.len() ==> #[trigger] order[k] < tasks.len(),
    ensures
        duration_sum(tasks, order) == sum(chosen_durations(tasks, order)),
    decreases order.len(),
{
    let n = tasks.len();
    if order.len() == 0 {
        assert(chosen_durations(tasks, order) =~= Seq::new(n, |i: int| 0int));
        crate::agent_scheduler::lemma_sum_zeros(n);
    } else {
        let d = order.drop_last();
        let x = order.last();
        assert(d.no_duplicates());
        assert forall|k: int| 0 <= k < d.len() implies #[trigger] d[k] < n by {
            assert(d[k] == order[k]);
        }
        lemma_distinct_durations(tasks, d);
        assert(!d.contains(x)) by {
            if d.contains(x) {
                let k = choose|k: int| 0 <= k < d.len() && d[k] == x;
                assert(order[k] == order[order.len() - 1]);
            }
        }
        assert(x < n);
        let before = chosen_durations(tasks, d);
        assert(chosen_durations(tasks, order) =~= before.update(x as int, tasks[x as int].estimated_duration_ms as int)) by {
            assert forall|i: int| 0 <= i < n implies #[trigger] chosen_durations(tasks, order)[i] == before.update(x as int, tasks[x as int].estimated_duration_ms as int)[i] by {
                if order.contains(i as usize) && i != x {
                    let k = choose|k: int| 0 <= k < order.len() && order[k] == i as usize;
                    assert(d[k] == i as usize);
                }
                if d.contains(i as usize) {
                    let k = choose|k: int| 0 <= k < d.len() && d[k] == i as usize;
                    assert(order[k] == i as usize);
                }
                if i == x {
                    assert(order[order.len() - 1] == x);
                }
            }
        }
        lemma_sum_update(before, x as int, tasks[x as int].estimated_duration_ms as int);
    }
}

/// When all durations together fit in `u64`, so do the completion times that dependency
/// scheduling reports: the order names each task at most once.
pub proof fn lemma_dependency_times_fit(tasks: Seq<AgentTask>)
    requires
        tasks.len() <= usize::MAX,
        total_duration(tasks) <= u64::MAX,
    ensures
        duration_sum(tasks, dep_order(tasks)) <= u64::MAX,
{
    lemma_dependencies_respected(tasks);
    let o = dep_order(tasks);
    lemma_distinct_durations(tasks, o);
    crate::feedback_laws::lemma_sum_le_pointwise(chosen_durations(tasks, o), Seq::new(tasks.len(), |i: int| tasks[i].estimated_duration_ms as int));
}

} // verus!
