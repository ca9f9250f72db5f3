# lau_operating_systems

Operating-system algorithms as small simulations, each stated and proved with Verus:
CPU scheduling (FCFS, SJF, Priority, Round Robin, MLFQ), page tables and a TLB, page
replacement (FIFO, LRU, Clock, Optimal), demand paging, disk scheduling (FCFS, SSTF,
SCAN, C-SCAN), a mutex, a counting semaphore and a bounded buffer, deadlock detection on
a resource allocation graph, the Banker's algorithm, and an agent task scheduler.

## Layout

- `src/` — the verified library. Each algorithm has a mathematical model (spec
  functions over `Seq`, `Map`, `Multiset` and integers) and executable code whose
  contract is stated over that model.
  - `scheduling.rs`, `feedback.rs`: the CPU schedulers; Round Robin and MLFQ share one
    multi-level feedback simulation.
  - `feedback_laws.rs`, `sjf_laws.rs`, `rr_laws.rs`: termination of the feedback
    simulation, optimality of SJF for jobs that arrive together, and the Round Robin
    response-time bound.
  - `memory.rs`, `virtual_memory.rs`, `page_replacement.rs`, `lru_laws.rs`,
    `pager_laws.rs`: paging, the inclusion property of LRU (no Belady anomaly), and that
    the demand pager faults exactly when FIFO replacement does.
  - `optimal_laws.rs`: Belady's rule is optimal among demand-paging policies; so Optimal
    replacement faults no more than FIFO, LRU or Clock, and shows no Belady anomaly.
  - `disk.rs`: the disk schedulers, and that each serves every request once.
  - `synchronization.rs`: the synchronization primitives, and that a semaphore's queue
    holds exactly as many threads as its value is below zero.
  - `deadlock.rs`, `wait_graph.rs`: the Banker's algorithm (safety check sound and
    complete) and cycle detection (a process is reported exactly when the graph has a
    cycle, and every reported process lies on one).
  - `agent_scheduler.rs`, `dependencies.rs`: best-of-four scheduling and
    dependency-aware scheduling with Kahn's algorithm.
  - `prelude.rs`: the main items under one path.
- `tests/` — executable tests of the library.
- `app/` — serializable copies of the state types (serde) and the floating-point
  ratios (averages, throughput, hit and fault rates) computed from the integer totals
  that the library reports.
