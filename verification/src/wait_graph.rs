use vstd::prelude::*;
use crate::util::{count_false, lemma_count_false_update, first_index, lemma_first_index, lemma_first_index_contains, all_false};
use crate::deadlock::rows;

verus! {

/// Resource Allocation Graph edge.
#[derive(Clone, Copy, Debug)]
pub enum RagEdge {
    Request { process: usize, resource: usize },
    Assignment { resource: usize, process: usize },
}

/// Resource Allocation Graph for deadlock detection.
///
/// Nodes `0..num_processes` are the processes; resource `r` is node `num_processes + r`.
#[derive(Clone, Debug)]
pub struct ResourceAllocationGraph {
    pub num_processes: usize,
    pub num_resources: usize,
    pub edges: Vec<RagEdge>,
}

/// The node an edge leaves.
pub open spec fn edge_source(np: int, e: RagEdge) -> int {
    match e {
        RagEdge::Request { process, .. } => process as int,
        RagEdge::Assignment { resource, .. } => np + resource,
    }
}

/// The node an edge enters.
pub open spec fn edge_target(np: int, e: RagEdge) -> int {
    match e {
        RagEdge::Request { resource, .. } => np + resource,
        RagEdge::Assignment { process, .. } => process as int,
    }
}

/// The edge joins two of the `total` nodes, each a machine-sized index.
pub open spec fn edge_fits(np: int, total: int, e: RagEdge) -> bool {
    &&& 0 <= edge_source(np, e) < total
    &&& 0 <= edge_target(np, e) < total
    &&& edge_target(np, e) <= usize::MAX
}

/// Every edge joins two of the `total` nodes.
pub open spec fn edges_fit(np: int, total: int, edges: Seq<RagEdge>) -> bool {
    forall|i: int| 0 <= i < edges.len() ==> edge_fits(np, total, #[trigger] edges[i])
}

/// Every edge joins a process and a resource of the graph.
pub open spec fn edges_valid(np: int, nr: int, edges: Seq<RagEdge>) -> bool {
    forall|i: int|
        0 <= i < edges.len() ==> match #[trigger] edges[i] {
            RagEdge::Request { process, resource } => process < np && resource < nr,
            RagEdge::Assignment { resource, process } => process < np && resource < nr,
        }
}

/// Successor lists: each node's targets in the order their edges were added.
pub open spec fn adjacency(np: int, total: int, edges: Seq<RagEdge>) -> Seq<Seq<usize>>
    decreases edges.len(),
{
    if edges.len() == 0 {
        Seq::new(total as nat, |u: int| Seq::<usize>::empty())
    } else {
        let a = adjacency(np, total, edges.drop_last());
        let u = edge_source(np, edges.last());
        a.update(u, a[u].push(edge_target(np, edges.last()) as usize))
    }
}

/// There is an edge from `u` to `v`.
pub open spec fn is_edge(adj: Seq<Seq<usize>>, u: usize, v: usize) -> bool {
    u < adj.len() && adj[u as int].contains(v)
}

/// `w` follows edges and comes back to where it started.
pub open spec fn is_closed_walk(adj: Seq<Seq<usize>>, w: Seq<usize>) -> bool {
    &&& w.len() >= 2
    &&& w[0] == w.last()
    &&& forall|i: int| 0 <= i < w.len() - 1 ==> #[trigger] is_edge(adj, w[i], w[i + 1])
}

/// Node `x` lies on a cycle.
pub open spec fn on_cycle(adj: Seq<Seq<usize>>, x: usize) -> bool {
    exists|w: Seq<usize>| #[trigger] is_closed_walk(adj, w) && w[0] == x
}

/// The depth-first search: node colours (0 unvisited, 1 entered, 2 finished), the nodes
/// marked as lying on a cycle, the stack of (node, next successor index) frames, the next
/// process to start from, whether a cycle was found, and the nodes in the order they
/// finished.
pub struct DfsState {
    pub color: Seq<u8>,
    pub in_cycle: Seq<bool>,
    pub stack: Seq<(usize, usize)>,
    pub root: int,
    pub found: bool,
    pub done: Seq<usize>,
}

/// The nodes on the stack, bottom first.
pub open spec fn path(s: DfsState) -> Seq<usize> {
    s.stack.map_values(|f: (usize, usize)| f.0)
}

/// `marks` with every node of `seg` set.
pub open spec fn mark_all(marks: Seq<bool>, seg: Seq<usize>) -> Seq<bool> {
    Seq::new(marks.len(), |x: int| marks[x] || seg.contains(x as usize))
}

pub open spec fn dfs_start(total: int) -> DfsState {
    DfsState {
        color: Seq::new(total as nat, |i: int| 0u8),
        in_cycle: Seq::new(total as nat, |i: int| false),
        stack: Seq::empty(),
        root: 0,
        found: false,
        done: Seq::empty(),
    }
}

pub open spec fn dfs_stopped(np: int, s: DfsState) -> bool {
    s.stack.len() == 0 && s.root >= np
}

/// One step of the search.  With an empty stack the next process is started if unvisited.
/// Otherwise the top frame finishes its node once all successors are looked at, or looks
/// at the next one: an unvisited successor is entered; one that is entered and on the
/// stack closes a cycle, whose nodes are marked, and the search from this process ends;
/// one that is finished, or that was entered by the search from an earlier process and
/// left there, is passed over.
pub open spec fn dfs_step(adj: Seq<Seq<usize>>, np: int, s: DfsState) -> DfsState {
    if s.stack.len() == 0 {
        let r = s.root;
        if s.color[r] == 0 {
            DfsState { color: s.color.update(r, 1u8), stack: seq![(r as usize, 0usize)], root: r + 1, ..s }
        } else {
            DfsState { root: r + 1, ..s }
        }
    } else {
        let top = s.stack.len() - 1;
        let u = s.stack[top].0;
        let k = s.stack[top].1;
        if k >= adj[u as int].len() {
            DfsState { color: s.color.update(u as int, 2u8), stack: s.stack.drop_last(), done: s.done.push(u), ..s }
        } else {
            let v = adj[u as int][k as int];
            let adv = s.stack.update(top, (u, (k + 1) as usize));
            if s.color[v as int] == 1 {
                let pos = first_index(path(s), v, 0);
                if pos >= 0 {
                    DfsState {
                        in_cycle: mark_all(s.in_cycle, path(s).subrange(pos, s.stack.len() as int)),
                        stack: Seq::empty(),
                        found: true,
                        ..s
                    }
                } else {
                    DfsState { stack: adv, ..s }
                }
            } else if s.color[v as int] == 0 {
                DfsState { color: s.color.update(v as int, 1u8), stack: adv.push((v, 0usize)), ..s }
            } else {
                DfsState { stack: adv, ..s }
            }
        }
    }
}

/// Number of unvisited nodes.
pub open spec fn whites(color: Seq<u8>) -> nat {
    count_false(color.map_values(|c: u8| c != 0))
}

/// Successors still to look at on the stack, plus one per frame.
pub open spec fn stack_measure(adj: Seq<Seq<usize>>, st: Seq<(usize, usize)>) -> nat
    decreases st.len(),
{
    if st.len() == 0 {
        0
    } else {
        stack_measure(adj, st.drop_last()) + (adj[st.last().0 as int].len() - st.last().1 + 1) as nat
    }
}

/// Shape of a search state: lengths, indices in range, and each frame below the top
/// entered the next frame's node through its last successor looked at.
pub open spec fn dfs_inv(adj: Seq<Seq<usize>>, np: int, s: DfsState) -> bool {
    &&& s.color.len() == adj.len()
    &&& s.in_cycle.len() == adj.len()
    &&& 0 <= s.root <= np <= adj.len() <= usize::MAX
    &&& forall|u: int| 0 <= u < adj.len() ==> #[trigger] adj[u].len() <= usize::MAX
    &&& forall|u: int, k: int| 0 <= u < adj.len() && 0 <= k < adj[u].len() ==> #[trigger] adj[u][k] < adj.len()
    &&& forall|i: int| 0 <= i < s.stack.len() ==> (#[trigger] s.stack[i]).0 < adj.len() && s.stack[i].1 <= adj[s.stack[i].0 as int].len()
    &&& forall|i: int| 0 <= i < s.stack.len() - 1 ==> (#[trigger] s.stack[i]).1 >= 1 && adj[s.stack[i].0 as int][s.stack[i].1 - 1] == s.stack[i + 1].0
}

proof fn lemma_whites_set(color: Seq<u8>, i: int, c: u8)
    requires
        0 <= i < color.len(),
        c != 0,
    ensures
        color[i] == 0 ==> whites(color.update(i, c)) + 1 == whites(color),
        color[i] != 0 ==> whites(color.update(i, c)) == whites(color),
{
    let m = color.map_values(|c: u8| c != 0);
    assert(color.update(i, c).map_values(|c: u8| c != 0) =~= m.update(i, true));
    if color[i] == 0 {
        lemma_count_false_update(m, i);
    } else {
        assert(m.update(i, true) =~= m);
    }
}

proof fn lemma_stack_measure_pos(adj: Seq<Seq<usize>>, st: Seq<(usize, usize)>)
    requires
        st.len() > 0,
        st.last().1 <= adj[st.last().0 as int].len(),
    ensures
        stack_measure(adj, st) > 0,
{
}

/// Each step that does not stop the search decreases (whites, unstarted processes, stack measure).
proof fn lemma_dfs_step_decreases(adj: Seq<Seq<usize>>, np: int, s: DfsState)
    requires
        dfs_inv(adj, np, s),
        !dfs_stopped(np, s),
    ensures
        ({
            let t = dfs_step(adj, np, s);
            ||| whites(t.color) < whites(s.color)
            ||| whites(t.color) == whites(s.color) && np - t.root < np - s.root
            ||| whites(t.color) == whites(s.color) && t.root == s.root && stack_measure(adj, t.stack) < stack_measure(adj, s.stack)
        }),
{
    let t = dfs_step(adj, np, s);
    if s.stack.len() == 0 {
        if s.color[s.root] == 0 {
            lemma_whites_set(s.color, s.root, 1u8);
        }
    } else {
        let top = s.stack.len() - 1;
        let u = s.stack[top].0;
        let k = s.stack[top].1;
        assert(s.stack[top].0 < adj.len());
        lemma_stack_measure_pos(adj, s.stack);
        if k >= adj[u as int].len() {
            lemma_whites_set(s.color, u as int, 2u8);
            assert(stack_measure(adj, s.stack.drop_last()) < stack_measure(adj, s.stack));
        } else {
            let v = adj[u as int][k as int];
            let adv = s.stack.update(top, (u, (k + 1) as usize));
            assert(adv.drop_last() =~= s.stack.drop_last());
            assert(stack_measure(adj, adv) < stack_measure(adj, s.stack));
            if v < s.color.len() && s.color[v as int] == 0 {
                lemma_whites_set(s.color, v as int, 1u8);
            } else if v < s.color.len() && s.color[v as int] == 1 {
                assert(stack_measure(adj, Seq::empty()) == 0);
            } else if v < s.color.len() {
                assert(t.stack == adv);
            } else {
                assert(stack_measure(adj, Seq::empty()) == 0);
            }
        }
    }
}

/// The search run until it stops.
pub open spec fn dfs_run(adj: Seq<Seq<usize>>, np: int, s: DfsState) -> DfsState
    decreases whites(s.color), np - s.root, stack_measure(adj, s.stack)
        when dfs_inv(adj, np, s)
        via dfs_run_decreases
{
    if dfs_stopped(np, s) {
        s
    } else {
        dfs_run(adj, np, dfs_step(adj, np, s))
    }
}

#[via_fn]
proof fn dfs_run_decreases(adj: Seq<Seq<usize>>, np: int, s: DfsState) {
    if dfs_inv(adj, np, s) && !dfs_stopped(np, s) {
        lemma_dfs_step_decreases(adj, np, s);
    }
}

proof fn lemma_dfs_step_inv(adj: Seq<Seq<usize>>, np: int, s: DfsState)
    requires
        dfs_inv(adj, np, s),
        !dfs_stopped(np, s),
    ensures
        dfs_inv(adj, np, dfs_step(adj, np, s)),
{
    let t = dfs_step(adj, np, s);
    if s.stack.len() > 0 {
        let top = s.stack.len() - 1;
        let u = s.stack[top].0;
        let k = s.stack[top].1;
        assert(s.stack[top].0 < adj.len());
        if k < adj[u as int].len() {
            let v = adj[u as int][k as int];
            let adv = s.stack.update(top, (u, (k + 1) as usize));
            assert(adj[u as int].len() <= usize::MAX);
            if v < s.color.len() && s.color[v as int] == 0 {
                assert(t.stack == adv.push((v, 0usize)));
                assert forall|i: int| 0 <= i < t.stack.len() - 1 implies (#[trigger] t.stack[i]).1 >= 1 && adj[t.stack[i].0 as int][t.stack[i].1 - 1] == t.stack[i + 1].0 by {
                    if i < top {
                        assert(t.stack[i] == s.stack[i]);
                    }
                }
            } else if v < s.color.len() && s.color[v as int] == 1 {
                assert(t.in_cycle.len() == s.in_cycle.len());
            }
        }
    }
}

/// Searching from a state keeps its shape and ends in a stopped state.
pub proof fn lemma_dfs_run_inv(adj: Seq<Seq<usize>>, np: int, s: DfsState)
    requires
        dfs_inv(adj, np, s),
    ensures
        dfs_inv(adj, np, dfs_run(adj, np, s)),
        dfs_stopped(np, dfs_run(adj, np, s)),
    decreases whites(s.color), np - s.root, stack_measure(adj, s.stack),
{
    if !dfs_stopped(np, s) {
        lemma_dfs_step_decreases(adj, np, s);
        lemma_dfs_step_inv(adj, np, s);
        lemma_dfs_run_inv(adj, np, dfs_step(adj, np, s));
    }
}

proof fn lemma_adjacency_shape(np: int, total: int, edges: Seq<RagEdge>)
    requires
        0 <= total,
        edges_fit(np, total, edges),
    ensures
        adjacency(np, total, edges).len() == total,
        forall|u: int| 0 <= u < total ==> #[trigger] adjacency(np, total, edges)[u].len() <= edges.len(),
        forall|u: int, k: int|
            0 <= u < total && 0 <= k < adjacency(np, total, edges)[u].len() ==> #[trigger] adjacency(np, total, edges)[u][k] < total,
    decreases edges.len(),
{
    if edges.len() > 0 {
        let pre = edges.drop_last();
        assert(edges_fit(np, total, pre)) by {
            assert forall|i: int| 0 <= i < pre.len() implies edge_fits(np, total, #[trigger] pre[i]) by {
                assert(pre[i] == edges[i]);
            }
        }
        lemma_adjacency_shape(np, total, pre);
        assert(edges[edges.len() - 1] == edges.last());
        assert(edge_fits(np, total, edges[edges.len() - 1]));
        let a = adjacency(np, total, pre);
        assert forall|u: int, k: int|
            0 <= u < total && 0 <= k < adjacency(np, total, edges)[u].len() implies #[trigger] adjacency(np, total, edges)[u][k] < total by {
            if u == edge_source(np, edges.last()) && k == a[u].len() {
            } else {
                assert(adjacency(np, total, edges)[u][k] == a[u][k]);
            }
        }
    }
}

/// Processes `0..n` whose mark is set, in increasing order.
pub open spec fn marked_processes(marks: Seq<bool>, n: int) -> Seq<usize>
    decreases n,
{
    if n <= 0 {
        Seq::empty()
    } else {
        marked_processes(marks, n - 1) + if marks[n - 1] { seq![(n - 1) as usize] } else { Seq::empty() }
    }
}

spec fn state_of(color: Seq<u8>, in_cycle: Seq<bool>, stack: Seq<(usize, usize)>, root: int, found: bool, done: Seq<usize>) -> DfsState {
    DfsState { color, in_cycle, stack, root, found, done }
}

impl ResourceAllocationGraph {
    /// Number of nodes.
    pub open spec fn total(&self) -> int {
        self.num_processes + self.num_resources
    }

    /// The graph's successor lists.
    pub open spec fn adj(&self) -> Seq<Seq<usize>> {
        adjacency(self.num_processes as int, self.total(), self.edges@)
    }

    /// The search started from each process in turn.
    pub open spec fn search(&self) -> DfsState {
        dfs_run(self.adj(), self.num_processes as int, dfs_start(self.total()))
    }

    /// The processes that detection reports: those marked on a cycle by the search.
    pub open spec fn deadlocked(&self) -> Seq<usize> {
        marked_processes(self.search().in_cycle, self.num_processes as int)
    }

    /// Detection can run: the node count fits, and every edge joins two nodes of the graph.
    pub open spec fn detectable(&self) -> bool {
        &&& self.total() <= usize::MAX
        &&& edges_fit(self.num_processes as int, self.total(), self.edges@)
    }

    pub fn new(num_processes: usize, num_resources: usize) -> (g: Self)
        ensures
            g.num_processes == num_processes,
            g.num_resources == num_resources,
            g.edges@ == Seq::<RagEdge>::empty(),
    {
        ResourceAllocationGraph { num_processes, num_resources, edges: Vec::new() }
    }

    /// Add a request edge from a process to a resource.
    pub fn request(&mut self, process: usize, resource: usize)
        ensures
            final(self).num_processes == old(self).num_processes,
            final(self).num_resources == old(self).num_resources,
            final(self).edges@ == old(self).edges@.push(RagEdge::Request { process, resource }),
    {
        self.edges.push(RagEdge::Request { process, resource });
    }

    /// Add an assignment edge from a resource to a process.
    pub fn assign(&mut self, resource: usize, process: usize)
        ensures
            final(self).num_processes == old(self).num_processes,
            final(self).num_resources == old(self).num_resources,
            final(self).edges@ == old(self).edges@.push(RagEdge::Assignment { resource, process }),
    {
        self.edges.push(RagEdge::Assignment { resource, process });
    }

    fn successor_lists(&self) -> (adj: Vec<Vec<usize>>)
        requires
            self.total() <= usize::MAX,
            edges_fit(self.num_processes as int, self.total(), self.edges@),
        ensures
            rows(adj@) == self.adj(),
    {
        let np = self.num_processes;
        let total = np + self.num_resources;
        let mut adj: Vec<Vec<usize>> = Vec::new();
        let mut u: usize = 0;
        while u < total
            invariant
                u <= total,
                rows(adj@) =~= Seq::new(u as nat, |i: int| Seq::<usize>::empty()),
            decreases total - u,
        {
            let ghost before = adj@;
            adj.push(Vec::new());
            proof {
                assert(rows(adj@) =~= rows(before).push(Seq::<usize>::empty()));
            }
            u = u + 1;
        }
        proof {
            assert(self.edges@.take(0) =~= Seq::<RagEdge>::empty());
        }
        let mut e: usize = 0;
        while e < self.edges.len()
            invariant
                e <= self.edges@.len(),
                np == self.num_processes,
                total == self.total(),
                edges_fit(np as int, total as int, self.edges@),
                rows(adj@) == adjacency(np as int, total as int, self.edges@.take(e as int)),
            decreases self.edges@.len() - e,
        {
            let ghost pre = self.edges@.take(e as int);
            proof {
                assert(edges_fit(np as int, total as int, pre)) by {
                    assert forall|i: int| 0 <= i < pre.len() implies edge_fits(np as int, total as int, #[trigger] pre[i]) by {
                        assert(pre[i] == self.edges@[i]);
                    }
                }
                lemma_adjacency_shape(np as int, total as int, pre);
                assert(self.edges@.take(e + 1).drop_last() =~= pre);
                assert(self.edges@.take(e + 1).last() == self.edges@[e as int]);
            }
            let edge = self.edges[e];
            let src: usize;
            let dst: usize;
            match edge {
                RagEdge::Request { process, resource } => {
                    src = process;
                    dst = np + resource;
                },
                RagEdge::Assignment { resource, process } => {
                    src = np + resource;
                    dst = process;
                },
            }
            let mut row = adj[src].clone();
            proof {
                assert(row@ =~= adj@[src as int]@);
            }
            row.push(dst);
            let ghost before = adj@;
            adj.set(src, row);
            proof {
                assert(rows(adj@) =~= rows(before).update(src as int, rows(before)[src as int].push(dst)));
            }
            e = e + 1;
        }
        proof {
            assert(self.edges@.take(e as int) =~= self.edges@);
        }
        adj
    }

    /// Detect deadlock: the processes on the cycles that a depth-first search from each
    /// process in turn closes.  A search that closes a cycle marks the nodes from the
    /// re-entered node to the top of the path, and ends.
    pub fn detect_deadlock(&self) -> (r: Vec<usize>)
        requires
            self.detectable(),
        ensures
            r@ == self.deadlocked(),
            forall|i: int| 0 <= i < r@.len() ==> #[trigger] r@[i] < self.num_processes && on_cycle(self.adj(), r@[i]),
            forall|i: int, j: int| 0 <= i < j < r@.len() ==> #[trigger] r@[i] < #[trigger] r@[j],
            edges_valid(self.num_processes as int, self.num_resources as int, self.edges@) ==> (r@.len() > 0 <==> exists|w: Seq<usize>| #[trigger] is_closed_walk(self.adj(), w)),
    {
        let np = self.num_processes;
        let total = np + self.num_resources;
        let adj = self.successor_lists();
        let ghost g = rows(adj@);
        let num_edges = self.edges.len();
        proof {
            lemma_adjacency_shape(np as int, total as int, self.edges@);
        }
        let mut color: Vec<u8> = Vec::new();
        let mut c: usize = 0;
        while c < total
            invariant
                c <= total,
                color@ =~= Seq::new(c as nat, |i: int| 0u8),
            decreases total - c,
        {
            color.push(0);
            c = c + 1;
        }
        let mut in_cycle = all_false(total);
        let mut stack: Vec<(usize, usize)> = Vec::new();
        let mut root: usize = 0;
        let ghost mut found = false;
        let ghost mut done: Seq<usize> = Seq::empty();
        proof {
            assert(state_of(color@, in_cycle@, stack@, 0, found, done) == dfs_start(total as int));
            assert(dfs_inv(g, np as int, dfs_start(total as int)));
        }
        while !(stack.len() == 0 && root >= np)
            invariant
                g == rows(adj@),
                g == self.adj(),
                g.len() == total,
                total == self.total(),
                np == self.num_processes,
                dfs_inv(g, np as int, state_of(color@, in_cycle@, stack@, root as int, found, done)),
                dfs_run(g, np as int, state_of(color@, in_cycle@, stack@, root as int, found, done)) == self.search(),
            decreases whites(color@), np - root, stack_measure(g, stack@),
        {
            let ghost cur = state_of(color@, in_cycle@, stack@, root as int, found, done);
            let ghost nxt = dfs_step(g, np as int, cur);
            proof {
                lemma_dfs_step_decreases(g, np as int, cur);
                lemma_dfs_step_inv(g, np as int, cur);
                assert(dfs_run(g, np as int, cur) == dfs_run(g, np as int, nxt));
            }
            if stack.len() == 0 {
                if color[root] == 0 {
                    color.set(root, 1);
                    stack.push((root, 0));
                }
                root = root + 1;
            } else {
                let top = stack.len() - 1;
                let u: usize = stack[top].0;
                let k: usize = stack[top].1;
                proof {
                    assert(cur.stack[top as int].0 < g.len());
                    assert(g[u as int] == adj@[u as int]@);
                }
                if k >= adj[u].len() {
                    color.set(u, 2);
                    stack.pop();
                    proof {
                        done = done.push(u);
                    }
                } else {
                    let v: usize = adj[u][k];
                    proof {
                        assert(v < total);
                    }
                    if color[v] == 1 {
                        let ghost p = path(cur);
                        let mut q: usize = 0;
                        while q < stack.len() && stack[q].0 != v
                            invariant
                                stack@ == cur.stack,
                                p == path(cur),
                                q <= stack@.len(),
                                first_index(p, v, 0) == first_index(p, v, q as int),
                            decreases stack@.len() - q,
                        {
                            q = q + 1;
                        }
                        if q == stack.len() {
                            proof {
                                assert(first_index(p, v, q as int) == -1);
                            }
                            stack.set(top, (u, k + 1));
                        } else {
                            let ghost pos = q as int;
                            let ghost ic0 = in_cycle@;
                            proof {
                                assert(first_index(p, v, q as int) == q);
                                assert(mark_all(ic0, p.subrange(pos, pos)) =~= ic0);
                            }
                            while q < stack.len()
                                invariant
                                    stack@ == cur.stack,
                                    p == path(cur),
                                    0 <= pos <= q <= stack@.len(),
                                    ic0.len() == g.len(),
                                    g.len() == total,
                                    dfs_inv(g, np as int, cur),
                                    in_cycle@ == mark_all(ic0, p.subrange(pos, q as int)),
                                decreases stack@.len() - q,
                            {
                                let x = stack[q].0;
                                proof {
                                    assert(cur.stack[q as int].0 < g.len());
                                }
                                let ghost before = in_cycle@;
                                in_cycle.set(x, true);
                                proof {
                                    assert(p[q as int] == x);
                                    assert(p[q as int] == cur.stack[q as int].0);
                                    let s0 = p.subrange(pos, q as int);
                                    let s1 = p.subrange(pos, q + 1);
                                    assert(s1 =~= s0.push(x));
                                    assert forall|y: int| 0 <= y < ic0.len() implies #[trigger] in_cycle@[y] == mark_all(ic0, s1)[y] by {
                                        if s0.contains(y as usize) {
                                            let z = choose|z: int| 0 <= z < s0.len() && #[trigger] s0[z] == y as usize;
                                            assert(s1[z] == y as usize);
                                        }
                                        if s1.contains(y as usize) && y != x {
                                            let z = choose|z: int| 0 <= z < s1.len() && #[trigger] s1[z] == y as usize;
                                            assert(s0[z] == y as usize);
                                        }
                                        if y == x {
                                            assert(s1[q - pos] == x);
                                        }
                                    }
                                    assert(in_cycle@ =~= mark_all(ic0, p.subrange(pos, q + 1)));
                                }
                                q = q + 1;
                            }
                            stack = Vec::new();
                            proof {
                                found = true;
                            }
                        }
                    } else if color[v] == 0 {
                        stack.set(top, (u, k + 1));
                        stack.push((v, 0));
                        color.set(v, 1);
                    } else {
                        stack.set(top, (u, k + 1));
                    }
                }
            }
            proof {
                assert(color@ =~= nxt.color);
                assert(in_cycle@ =~= nxt.in_cycle);
                assert(stack@ =~= nxt.stack);
                assert(root == nxt.root);
                assert(found == nxt.found);
                assert(done =~= nxt.done);
                assert(state_of(color@, in_cycle@, stack@, root as int, found, done) == nxt);
            }
        }
        proof {
            let cur = state_of(color@, in_cycle@, stack@, root as int, found, done);
            assert(dfs_run(g, np as int, cur) == cur);
        }
        let mut r: Vec<usize> = Vec::new();
        let mut p: usize = 0;
        while p < np
            invariant
                p <= np,
                np <= in_cycle@.len(),
                r@ == marked_processes(in_cycle@, p as int),
            decreases np - p,
        {
            if in_cycle[p] {
                r.push(p);
            }
            p = p + 1;
        }
        proof {
            let ne = self.edges@.len();
            assert(ne == num_edges);
            lemma_deadlock_sound(self);
            if edges_valid(self.num_processes as int, self.num_resources as int, self.edges@) {
                lemma_deadlock_iff_cycle(self);
            }
        }
        r
    }
}

/// Every marked node lies on a cycle.
pub open spec fn marks_sound(adj: Seq<Seq<usize>>, s: DfsState) -> bool {
    forall|x: int| 0 <= x < s.in_cycle.len() && #[trigger] s.in_cycle[x] ==> on_cycle(adj, x as usize)
}

proof fn lemma_path_edge(adj: Seq<Seq<usize>>, np: int, s: DfsState, i: int)
    requires
        dfs_inv(adj, np, s),
        0 <= i < s.stack.len() - 1,
    ensures
        is_edge(adj, path(s)[i], path(s)[i + 1]),
{
    let f = s.stack[i];
    assert(f.1 >= 1 && adj[f.0 as int][f.1 - 1] == s.stack[i + 1].0);
    assert(adj[f.0 as int].contains(path(s)[i + 1]));
}

proof fn lemma_dfs_step_sound(adj: Seq<Seq<usize>>, np: int, s: DfsState)
    requires
        dfs_inv(adj, np, s),
        !dfs_stopped(np, s),
        marks_sound(adj, s),
    ensures
        marks_sound(adj, dfs_step(adj, np, s)),
{
    let t = dfs_step(adj, np, s);
    if s.stack.len() > 0 {
        let top = s.stack.len() - 1;
        let u = s.stack[top].0;
        let k = s.stack[top].1;
        if k < adj[u as int].len() {
            let v = adj[u as int][k as int];
            let p = path(s);
            let len = s.stack.len() as int;
            let pos = first_index(p, v, 0);
            if v < s.color.len() && s.color[v as int] == 1 && pos >= 0 {
                lemma_first_index(p, v, 0);
                let seg = p.subrange(pos, len);
                assert forall|x: int| 0 <= x < t.in_cycle.len() && #[trigger] t.in_cycle[x] implies on_cycle(adj, x as usize) by {
                    if !s.in_cycle[x] {
                        assert(seg.contains(x as usize));
                        let z = choose|z: int| 0 <= z < seg.len() && #[trigger] seg[z] == x as usize;
                        let q = pos + z;
                        assert(p[q] == x as usize);
                        let w = p.subrange(q, len) + p.subrange(pos, q + 1);
                        assert forall|i: int| 0 <= i < w.len() - 1 implies #[trigger] is_edge(adj, w[i], w[i + 1]) by {
                            if i < len - q - 1 {
                                lemma_path_edge(adj, np, s, q + i);
                            } else if i == len - q - 1 {
                                assert(w[i] == u);
                                assert(w[i + 1] == v);
                                assert(adj[u as int][k as int] == v);
                            } else {
                                lemma_path_edge(adj, np, s, pos + i - (len - q));
                            }
                        }
                        assert(is_closed_walk(adj, w));
                    }
                }
            }
        }
    }
}

/// Proof that searching keeps every mark on a cycle.
proof fn lemma_dfs_run_sound(adj: Seq<Seq<usize>>, np: int, s: DfsState)
    requires
        dfs_inv(adj, np, s),
        marks_sound(adj, s),
    ensures
        marks_sound(adj, dfs_run(adj, np, s)),
    decreases whites(s.color), np - s.root, stack_measure(adj, s.stack),
{
    if !dfs_stopped(np, s) {
        lemma_dfs_step_decreases(adj, np, s);
        lemma_dfs_step_inv(adj, np, s);
        lemma_dfs_step_sound(adj, np, s);
        lemma_dfs_run_sound(adj, np, dfs_step(adj, np, s));
    }
}

proof fn lemma_marked_processes(marks: Seq<bool>, n: int)
    requires
        0 <= n <= marks.len(),
        n <= usize::MAX + 1,
    ensures
        forall|i: int| 0 <= i < marked_processes(marks, n).len() ==> {
            let x = #[trigger] marked_processes(marks, n)[i];
            x < n && marks[x as int]
        },
        (exists|x: int| 0 <= x < n && marks[x]) ==> marked_processes(marks, n).len() > 0,
        forall|i: int, j: int|
            0 <= i < j < marked_processes(marks, n).len() ==> #[trigger] marked_processes(marks, n)[i] < #[trigger] marked_processes(marks, n)[j],
    decreases n,
{
    if n > 0 {
        lemma_marked_processes(marks, n - 1);
        let pre = marked_processes(marks, n - 1);
        let cur = marked_processes(marks, n);
        assert forall|i: int, j: int| 0 <= i < j < cur.len() implies #[trigger] cur[i] < #[trigger] cur[j] by {
            if j < pre.len() {
                assert(cur[i] == pre[i] && cur[j] == pre[j]);
            } else {
                assert(cur[i] == pre[i]);
                assert(pre[i] < n - 1);
            }
        }
        if !marks[n - 1] {
            assert(marked_processes(marks, n) =~= pre);
            if exists|x: int| 0 <= x < n && marks[x] {
                let x = choose|x: int| 0 <= x < n && marks[x];
                assert(x < n - 1);
            }
        }
    }
}

/// Soundness of detection: every reported process lies on a cycle of the graph.
pub proof fn lemma_deadlock_sound(g: &ResourceAllocationGraph)
    requires
        g.edges@.len() <= usize::MAX,
        g.total() <= usize::MAX,
        edges_fit(g.num_processes as int, g.total(), g.edges@),
    ensures
        forall|i: int| 0 <= i < g.deadlocked().len() ==> {
            let p = #[trigger] g.deadlocked()[i];
            p < g.num_processes && on_cycle(g.adj(), p)
        },
        forall|i: int, j: int| 0 <= i < j < g.deadlocked().len() ==> #[trigger] g.deadlocked()[i] < #[trigger] g.deadlocked()[j],
{
    let adj = g.adj();
    let np = g.num_processes as int;
    lemma_adjacency_shape(np, g.total(), g.edges@);
    let s0 = dfs_start(g.total());
    assert(dfs_inv(adj, np, s0));
    lemma_dfs_run_inv(adj, np, s0);
    lemma_dfs_run_sound(adj, np, s0);
    lemma_marked_processes(g.search().in_cycle, np);
}

/// Every successor is a node, and edges join a process to a resource or a resource to a process.
pub open spec fn bipartite(adj: Seq<Seq<usize>>, np: int) -> bool {
    forall|u: int, k: int|
        0 <= u < adj.len() && 0 <= k < adj[u].len() ==> #[trigger] adj[u][k] < adj.len() && ((u < np) != (adj[u][k] < np))
}

/// Some node finished before the `i`-th finished node is `v`.
pub open spec fn finished_before(done: Seq<usize>, i: int, v: usize) -> bool {
    exists|j: int| 0 <= j < i && done[j] == v
}

/// A search that has found no cycle is in order: entered nodes are exactly those on the
/// stack, finished nodes exactly those in `done`, each finished node's successors finished
/// before it, started processes are visited, and each frame's successors looked at are
/// finished, but for the one through which the next frame was entered.
pub open spec fn search_ordered(adj: Seq<Seq<usize>>, np: int, s: DfsState) -> bool {
    &&& path(s).no_duplicates()
    &&& s.done.no_duplicates()
    &&& forall|x: int| 0 <= x < s.color.len() ==> #[trigger] s.color[x] <= 2
    &&& forall|x: int| 0 <= x < s.color.len() ==> (#[trigger] s.color[x] == 1 <==> path(s).contains(x as usize))
    &&& forall|x: int| 0 <= x < s.color.len() ==> (#[trigger] s.color[x] == 2 <==> s.done.contains(x as usize))
    &&& forall|i: int| 0 <= i < s.done.len() ==> #[trigger] s.done[i] < s.color.len()
    &&& forall|i: int, k: int|
        0 <= i < s.done.len() && 0 <= k < adj[s.done[i] as int].len() ==> finished_before(s.done, i, #[trigger] adj[s.done[i] as int][k])
    &&& forall|r: int| 0 <= r < s.root ==> #[trigger] s.color[r] != 0
    &&& forall|i: int, j: int|
        0 <= i < s.stack.len() && 0 <= j < s.stack[i].1 && !(i + 1 < s.stack.len() && j == s.stack[i].1 - 1)
            ==> s.color[#[trigger] adj[s.stack[i].0 as int][j] as int] == 2
}

/// Either a cycle was found and a process is marked, or the search is in order.
pub open spec fn search_complete_inv(adj: Seq<Seq<usize>>, np: int, s: DfsState) -> bool {
    &&& s.found ==> exists|q: int| 0 <= q < np && #[trigger] s.in_cycle[q]
    &&& !s.found ==> search_ordered(adj, np, s)
}

proof fn lemma_ordered_pop(adj: Seq<Seq<usize>>, np: int, s: DfsState)
    requires
        dfs_inv(adj, np, s),
        bipartite(adj, np),
        search_ordered(adj, np, s),
        s.stack.len() > 0,
        s.stack.last().1 >= adj[s.stack.last().0 as int].len(),
    ensures
        search_ordered(adj, np, dfs_step(adj, np, s)),
{
    let t = dfs_step(adj, np, s);
    let top = s.stack.len() - 1;
    let u = s.stack[top].0;
    let k = s.stack[top].1;
    let p = path(s);
    assert(s.stack[top].0 < adj.len());
    assert(path(t) =~= p.drop_last());
    assert(p[top] == u);
    assert(p.contains(u));
    assert(s.color[u as int] == 1);
    assert(!s.done.contains(u));
    assert forall|x: int| 0 <= x < t.color.len() implies (#[trigger] t.color[x] == 1 <==> path(t).contains(x as usize)) by {
        if x == u {
            if path(t).contains(u) {
                let z = choose|z: int| 0 <= z < path(t).len() && path(t)[z] == u;
                assert(p[z] == p[top]);
            }
        } else {
            if p.contains(x as usize) {
                let z = choose|z: int| 0 <= z < p.len() && p[z] == x as usize;
                assert(path(t)[z] == x as usize);
            }
        }
    }
    assert forall|x: int| 0 <= x < t.color.len() implies (#[trigger] t.color[x] == 2 <==> t.done.contains(x as usize)) by {
        if x == u {
            assert(t.done[s.done.len() as int] == u);
        } else {
            if t.done.contains(x as usize) {
                let z = choose|z: int| 0 <= z < t.done.len() && t.done[z] == x as usize;
                assert(s.done[z] == x as usize);
            }
            if s.done.contains(x as usize) {
                let z = choose|z: int| 0 <= z < s.done.len() && s.done[z] == x as usize;
                assert(t.done[z] == x as usize);
            }
        }
    }
    assert forall|i: int, j: int|
        0 <= i < t.done.len() && 0 <= j < adj[t.done[i] as int].len() implies finished_before(t.done, i, #[trigger] adj[t.done[i] as int][j]) by {
        if i < s.done.len() {
            assert(t.done[i] == s.done[i]);
            assert(finished_before(s.done, i, adj[s.done[i] as int][j]));
            let z = choose|z: int| 0 <= z < i && s.done[z] == adj[s.done[i] as int][j];
            assert(t.done[z] == s.done[z]);
        } else {
            assert(t.done[i] == u);
            let v = adj[u as int][j];
            assert(s.color[adj[s.stack[top].0 as int][j] as int] == 2);
            assert(s.done.contains(v));
            let z = choose|z: int| 0 <= z < s.done.len() && s.done[z] == v;
            assert(t.done[z] == v);
        }
    }
    assert forall|i: int, j: int|
        0 <= i < t.stack.len() && 0 <= j < t.stack[i].1 && !(i + 1 < t.stack.len() && j == t.stack[i].1 - 1)
            implies t.color[#[trigger] adj[t.stack[i].0 as int][j] as int] == 2 by {
        assert(t.stack[i] == s.stack[i]);
        if i + 1 < s.stack.len() && j == s.stack[i].1 - 1 {
            assert(adj[s.stack[i].0 as int][s.stack[i].1 - 1] == s.stack[i + 1].0);
        } else {
            assert(s.color[adj[s.stack[i].0 as int][j] as int] == 2);
        }
    }
    assert forall|i: int| 0 <= i < t.done.len() implies #[trigger] t.done[i] < t.color.len() by {
        if i < s.done.len() {
            assert(t.done[i] == s.done[i]);
        }
    }
}

proof fn lemma_ordered_look(adj: Seq<Seq<usize>>, np: int, s: DfsState)
    requires
        dfs_inv(adj, np, s),
        bipartite(adj, np),
        search_ordered(adj, np, s),
        s.stack.len() > 0,
        s.stack.last().1 < adj[s.stack.last().0 as int].len(),
        s.color[adj[s.stack.last().0 as int][s.stack.last().1 as int] as int] != 1,
    ensures
        search_ordered(adj, np, dfs_step(adj, np, s)),
{
    let t = dfs_step(adj, np, s);
    let top = s.stack.len() - 1;
    let u = s.stack[top].0;
    let k = s.stack[top].1;
    let p = path(s);
    assert(s.stack[top].0 < adj.len());
    let v = adj[u as int][k as int];
    assert(v < adj.len());
    let adv = s.stack.update(top, (u, (k + 1) as usize));
    assert(adj[u as int].len() <= usize::MAX);
    if s.color[v as int] == 0 {
        assert(path(t) =~= p.push(v));
        assert(!p.contains(v));
        assert(!s.done.contains(v));
        assert forall|x: int| 0 <= x < t.color.len() implies (#[trigger] t.color[x] == 1 <==> path(t).contains(x as usize)) by {
            if x == v {
                assert(path(t)[p.len() as int] == v);
            } else {
                if p.contains(x as usize) {
                    let z = choose|z: int| 0 <= z < p.len() && p[z] == x as usize;
                    assert(path(t)[z] == x as usize);
                }
                if path(t).contains(x as usize) {
                    let z = choose|z: int| 0 <= z < path(t).len() && path(t)[z] == x as usize;
                    assert(p[z] == x as usize);
                }
            }
        }
        assert forall|x: int| 0 <= x < t.color.len() implies (#[trigger] t.color[x] == 2 <==> t.done.contains(x as usize)) by {
            if x != v {
                assert(t.color[x] == s.color[x]);
            }
        }
        assert forall|r: int| 0 <= r < t.root implies #[trigger] t.color[r] != 0 by {
            if r != v {
                assert(t.color[r] == s.color[r]);
            }
        }
        assert forall|i: int, j: int|
            0 <= i < t.stack.len() && 0 <= j < t.stack[i].1 && !(i + 1 < t.stack.len() && j == t.stack[i].1 - 1)
                implies t.color[#[trigger] adj[t.stack[i].0 as int][j] as int] == 2 by {
            if i < top {
                assert(t.stack[i] == s.stack[i]);
            } else {
                assert(i == top);
                assert(t.stack[i] == (u, (k + 1) as usize));
                assert(j < k);
            }
            let w = adj[t.stack[i].0 as int][j];
            assert(s.color[w as int] == 2);
            assert(w != v);
        }
    } else {
        assert(s.color[v as int] == 2);
        assert(path(t) =~= p);
        assert forall|i: int, j: int|
            0 <= i < t.stack.len() && 0 <= j < t.stack[i].1 && !(i + 1 < t.stack.len() && j == t.stack[i].1 - 1)
                implies t.color[#[trigger] adj[t.stack[i].0 as int][j] as int] == 2 by {
            if i < top {
                assert(t.stack[i] == s.stack[i]);
            } else {
                assert(t.stack[i] == (u, (k + 1) as usize));
                if j < k {
                    assert(s.color[adj[s.stack[i].0 as int][j] as int] == 2);
                }
            }
        }
    }
}

proof fn lemma_ordered_root(adj: Seq<Seq<usize>>, np: int, s: DfsState)
    requires
        dfs_inv(adj, np, s),
        search_ordered(adj, np, s),
        s.stack.len() == 0,
        s.root < np,
    ensures
        search_ordered(adj, np, dfs_step(adj, np, s)),
{
    let t = dfs_step(adj, np, s);
    let r = s.root;
    if s.color[r] == 0 {
        assert(path(t) =~= seq![r as usize]);
        assert(path(s) =~= Seq::<usize>::empty());
        assert(!s.done.contains(r as usize));
        assert forall|x: int| 0 <= x < t.color.len() implies (#[trigger] t.color[x] == 1 <==> path(t).contains(x as usize)) by {
            if x == r {
                assert(path(t)[0] == r as usize);
            } else {
                assert(s.color[x] != 1);
            }
        }
        assert forall|x: int| 0 <= x < t.color.len() implies (#[trigger] t.color[x] == 2 <==> t.done.contains(x as usize)) by {
            if x != r {
                assert(t.color[x] == s.color[x]);
            }
        }
        assert forall|q: int| 0 <= q < t.root implies #[trigger] t.color[q] != 0 by {
            if q != r {
                assert(t.color[q] == s.color[q]);
            }
        }
    }
}

proof fn lemma_dfs_step_complete(adj: Seq<Seq<usize>>, np: int, s: DfsState)
    requires
        dfs_inv(adj, np, s),
        bipartite(adj, np),
        !dfs_stopped(np, s),
        search_complete_inv(adj, np, s),
    ensures
        search_complete_inv(adj, np, dfs_step(adj, np, s)),
{
    let t = dfs_step(adj, np, s);
    if s.found {
        let q = choose|q: int| 0 <= q < np && #[trigger] s.in_cycle[q];
        assert(t.in_cycle[q]);
    } else if s.stack.len() == 0 {
        lemma_ordered_root(adj, np, s);
    } else {
        let top = s.stack.len() - 1;
        let u = s.stack[top].0;
        let k = s.stack[top].1;
        assert(s.stack[top].0 < adj.len());
        if k >= adj[u as int].len() {
            lemma_ordered_pop(adj, np, s);
        } else {
            let v = adj[u as int][k as int];
            assert(v < adj.len());
            if s.color[v as int] == 1 {
                let p = path(s);
                let len = s.stack.len() as int;
                assert(p.contains(v));
                lemma_first_index_contains(p, v);
                lemma_first_index(p, v, 0);
                let pos = first_index(p, v, 0);
                let seg = p.subrange(pos, len);
                if v < np {
                    assert(seg[0] == v);
                    assert(t.in_cycle[v as int]);
                } else {
                    if pos == top {
                        assert(p[top] == u);
                        assert(false);
                    }
                    lemma_path_edge(adj, np, s, pos);
                    let w = p[pos + 1];
                    let row = adj[v as int];
                    let kk = choose|kk: int| 0 <= kk < row.len() && #[trigger] row[kk] == w;
                    assert(adj[v as int][kk] < np);
                    assert(seg[1] == w);
                    assert(t.in_cycle[w as int]);
                }
            } else {
                lemma_ordered_look(adj, np, s);
            }
        }
    }
}

proof fn lemma_dfs_run_complete(adj: Seq<Seq<usize>>, np: int, s: DfsState)
    requires
        dfs_inv(adj, np, s),
        bipartite(adj, np),
        search_complete_inv(adj, np, s),
    ensures
        search_complete_inv(adj, np, dfs_run(adj, np, s)),
    decreases whites(s.color), np - s.root, stack_measure(adj, s.stack),
{
    if !dfs_stopped(np, s) {
        lemma_dfs_step_decreases(adj, np, s);
        lemma_dfs_step_inv(adj, np, s);
        lemma_dfs_step_complete(adj, np, s);
        lemma_dfs_run_complete(adj, np, dfs_step(adj, np, s));
    }
}

/// Along a walk from the `i0`-th finished node, each node finished at least one place
/// earlier than the one before it.
proof fn lemma_walk_descends(adj: Seq<Seq<usize>>, done: Seq<usize>, w: Seq<usize>, i0: int, t: int)
    requires
        0 <= i0 < done.len(),
        done[i0] == w[0],
        0 <= t < w.len(),
        forall|i: int| 0 <= i < w.len() - 1 ==> #[trigger] is_edge(adj, w[i], w[i + 1]),
        forall|i: int, k: int|
            0 <= i < done.len() && 0 <= k < adj[done[i] as int].len() ==> finished_before(done, i, #[trigger] adj[done[i] as int][k]),
    ensures
        exists|j: int| 0 <= j <= i0 - t && done[j] == w[t],
    decreases t,
{
    if t > 0 {
        lemma_walk_descends(adj, done, w, i0, t - 1);
        let j = choose|j: int| 0 <= j <= i0 - (t - 1) && done[j] == w[t - 1];
        let i = t - 1;
        assert(is_edge(adj, w[i], w[i + 1]));
        assert(w[i + 1] == w[t]);
        let row = adj[w[t - 1] as int];
        let k = choose|k: int| 0 <= k < row.len() && #[trigger] row[k] == w[t];
        assert(finished_before(done, j, adj[done[j] as int][k]));
    } else {
        assert(done[i0] == w[0]);
    }
}

/// Some edge leaves `u` for `v`.
spec fn edge_listed(np: int, edges: Seq<RagEdge>, u: int, v: int) -> bool {
    exists|i: int| 0 <= i < edges.len() && edge_source(np, #[trigger] edges[i]) == u && edge_target(np, edges[i]) == v
}

proof fn lemma_adjacency_entries(np: int, total: int, edges: Seq<RagEdge>)
    requires
        0 <= np,
        0 <= total,
        edges_fit(np, total, edges),
    ensures
        forall|u: int, k: int|
            0 <= u < total && 0 <= k < adjacency(np, total, edges)[u].len() ==> edge_listed(np, edges, u, #[trigger] adjacency(np, total, edges)[u][k] as int),
    decreases edges.len(),
{
    lemma_adjacency_shape(np, total, edges);
    if edges.len() > 0 {
        let pre = edges.drop_last();
        assert(edges_fit(np, total, pre)) by {
            assert forall|i: int| 0 <= i < pre.len() implies edge_fits(np, total, #[trigger] pre[i]) by {
                assert(pre[i] == edges[i]);
            }
        }
        lemma_adjacency_shape(np, total, pre);
        lemma_adjacency_entries(np, total, pre);
        let a = adjacency(np, total, pre);
        let last = edges.len() - 1;
        assert(edges[last] == edges.last());
        assert forall|u: int, k: int|
            0 <= u < total && 0 <= k < adjacency(np, total, edges)[u].len() implies edge_listed(np, edges, u, #[trigger] adjacency(np, total, edges)[u][k] as int) by {
            if u == edge_source(np, edges.last()) && k == a[u].len() {
                assert(edge_source(np, edges[last]) == u && edge_target(np, edges[last]) == adjacency(np, total, edges)[u][k]);
            } else {
                assert(adjacency(np, total, edges)[u][k] == a[u][k]);
                assert(edge_listed(np, pre, u, a[u][k] as int));
                let i = choose|i: int| 0 <= i < pre.len() && edge_source(np, #[trigger] pre[i]) == u && edge_target(np, pre[i]) == a[u][k];
                assert(edges[i] == pre[i]);
            }
        }
    }
}

proof fn lemma_valid_bipartite(g: &ResourceAllocationGraph)
    requires
        g.total() <= usize::MAX,
        edges_valid(g.num_processes as int, g.num_resources as int, g.edges@),
    ensures
        edges_fit(g.num_processes as int, g.total(), g.edges@),
        bipartite(g.adj(), g.num_processes as int),
{
    let np = g.num_processes as int;
    let e = g.edges@;
    assert forall|i: int| 0 <= i < e.len() implies edge_fits(np, g.total(), #[trigger] e[i]) by {
        assert(edges_valid(np, g.num_resources as int, e));
    }
    lemma_adjacency_shape(np, g.total(), e);
    lemma_adjacency_entries(np, g.total(), e);
    let adj = g.adj();
    assert forall|u: int, k: int|
        0 <= u < adj.len() && 0 <= k < adj[u].len() implies #[trigger] adj[u][k] < adj.len() && ((u < np) != (adj[u][k] < np)) by {
        assert(edge_listed(np, e, u, adj[u][k] as int));
        let i = choose|i: int| 0 <= i < e.len() && edge_source(np, #[trigger] e[i]) == u && edge_target(np, e[i]) == adj[u][k];
        assert(edges_valid(np, g.num_resources as int, e));
    }
}

/// Completeness of detection: where every edge joins a process and a resource of the
/// graph, any cycle in the graph means that some process is reported.
pub proof fn lemma_deadlock_complete(g: &ResourceAllocationGraph, w: Seq<usize>)
    requires
        g.edges@.len() <= usize::MAX,
        g.total() <= usize::MAX,
        edges_valid(g.num_processes as int, g.num_resources as int, g.edges@),
        is_closed_walk(g.adj(), w),
    ensures
        g.deadlocked().len() > 0,
{
    let adj = g.adj();
    let np = g.num_processes as int;
    lemma_valid_bipartite(g);
    lemma_adjacency_shape(np, g.total(), g.edges@);
    let s0 = dfs_start(g.total());
    assert(path(s0) =~= Seq::<usize>::empty());
    assert(dfs_inv(adj, np, s0));
    assert(search_complete_inv(adj, np, s0));
    lemma_dfs_run_inv(adj, np, s0);
    lemma_dfs_run_complete(adj, np, s0);
    let f = g.search();
    lemma_marked_processes(f.in_cycle, np);
    if !f.found {
        assert(is_edge(adj, w[0], w[1]));
        let w2 = if w[0] < np {
            w
        } else {
            let row = adj[w[0] as int];
            let kk = choose|kk: int| 0 <= kk < row.len() && #[trigger] row[kk] == w[1];
            assert(adj[w[0] as int][kk] < np);
            w.subrange(1, w.len() as int).push(w[1])
        };
        assert forall|i: int| 0 <= i < w2.len() - 1 implies #[trigger] is_edge(adj, w2[i], w2[i + 1]) by {
            if w[0] >= np {
                if i < w.len() - 2 {
                    let j = i + 1;
                    assert(is_edge(adj, w[j], w[j + 1]));
                    assert(w2[i] == w[j] && w2[i + 1] == w[j + 1]);
                } else {
                    assert(w2[i] == w.last());
                    assert(is_edge(adj, w[0], w[1]));
                }
            }
        }
        let x = w2[0];
        assert(x < np);
        assert(f.color[x as int] != 0);
        assert(path(f) =~= Seq::<usize>::empty());
        assert(f.color[x as int] != 1);
        assert(f.color[x as int] == 2);
        assert(f.done.contains(x));
        let i0 = choose|i0: int| 0 <= i0 < f.done.len() && f.done[i0] == x;
        lemma_walk_descends(adj, f.done, w2, i0, w2.len() - 1);
        let j = choose|j: int| 0 <= j <= i0 - (w2.len() - 1) && f.done[j] == w2[w2.len() - 1];
        assert(f.done[j] == f.done[i0]);
    }
}

/// Deadlock exists exactly when there is a cycle: where every edge joins a process and a
/// resource of the graph, detection reports some process if and only if the graph has a cycle.
pub proof fn lemma_deadlock_iff_cycle(g: &ResourceAllocationGraph)
    requires
        g.edges@.len() <= usize::MAX,
        g.total() <= usize::MAX,
        edges_valid(g.num_processes as int, g.num_resources as int, g.edges@),
    ensures
        g.deadlocked().len() > 0 <==> exists|w: Seq<usize>| #[trigger] is_closed_walk(g.adj(), w),
{
    lemma_valid_bipartite(g);
    lemma_deadlock_sound(g);
    if g.deadlocked().len() > 0 {
        let p = g.deadlocked()[0];
        assert(on_cycle(g.adj(), p));
        let w = choose|w: Seq<usize>| #[trigger] is_closed_walk(g.adj(), w) && w[0] == p;
        assert(is_closed_walk(g.adj(), w));
    }
    if exists|w: Seq<usize>| #[trigger] is_closed_walk(g.adj(), w) {
        let w = choose|w: Seq<usize>| #[trigger] is_closed_walk(g.adj(), w);
        lemma_deadlock_complete(g, w);
    }
}

} // verus!
