use lau_operating_systems::agent_scheduler::{schedule_agent_tasks, schedule_with_dependencies, AgentTask};
use lau_operating_systems::deadlock::{BankersAlgorithm, RagEdge, ResourceAllocationGraph};
use lau_operating_systems::disk::{disk_cscan, disk_fcfs, disk_scan, disk_sstf};
use lau_operating_systems::memory::{PageTable, Tlb};
use lau_operating_systems::page_replacement::{
    simulate_replacement, ClockReplacement, FifoReplacement, LruReplacement, OptimalReplacement, PageReplacement,
};
use lau_operating_systems::scheduling::{fcfs, priority_schedule, round_robin, sjf, Process};
use lau_operating_systems::synchronization::{Mutex, ProducerConsumer, Semaphore};
use lau_operating_systems::virtual_memory::DemandPager;

fn task(id: &str, priority: u32, duration: u64, deps: &[&str]) -> AgentTask {
    AgentTask {
        id: id.to_string(),
        priority,
        estimated_duration_ms: duration,
        dependencies: deps.iter().map(|d| d.to_string()).collect(),
        deadline: None,
    }
}

fn textbook_bank() -> BankersAlgorithm {
    BankersAlgorithm::new(
        vec![3, 3, 2],
        vec![vec![7, 5, 3], vec![3, 2, 2], vec![9, 0, 2], vec![2, 2, 2], vec![4, 3, 3]],
        vec![vec![0, 1, 0], vec![2, 0, 0], vec![3, 0, 2], vec![2, 1, 1], vec![0, 0, 2]],
    )
}

// ─── Resource allocation graph ─────────────────────────────────────

#[test]
fn rag_edges_are_recorded_in_order() {
    let mut rag = ResourceAllocationGraph::new(2, 1);
    rag.request(1, 0);
    rag.assign(0, 0);
    assert_eq!(rag.edges.len(), 2);
    assert!(matches!(rag.edges[0], RagEdge::Request { process: 1, resource: 0 }));
    assert!(matches!(rag.edges[1], RagEdge::Assignment { resource: 0, process: 0 }));
}

#[test]
fn rag_single_process_cycle() {
    let mut rag = ResourceAllocationGraph::new(1, 1);
    rag.request(0, 0);
    rag.assign(0, 0);
    assert_eq!(rag.detect_deadlock(), vec![0]);
}

#[test]
fn rag_chain_without_cycle() {
    let mut rag = ResourceAllocationGraph::new(3, 2);
    rag.assign(0, 0);
    rag.request(1, 0);
    rag.assign(1, 1);
    rag.request(2, 1);
    assert!(rag.detect_deadlock().is_empty());
}

#[test]
fn rag_waiting_process_is_not_reported() {
    // R0 -> P1 -> R1 -> P2 -> R0 is a cycle; P0 only waits for R0.
    let mut rag = ResourceAllocationGraph::new(3, 2);
    rag.request(0, 0);
    rag.assign(0, 1);
    rag.request(1, 1);
    rag.assign(1, 2);
    rag.request(2, 0);
    assert_eq!(rag.detect_deadlock(), vec![1, 2]);
}

#[test]
fn rag_two_separate_cycles() {
    let mut rag = ResourceAllocationGraph::new(4, 4);
    rag.request(0, 0);
    rag.assign(0, 1);
    rag.request(1, 1);
    rag.assign(1, 0);
    rag.request(2, 2);
    rag.assign(2, 3);
    rag.request(3, 3);
    rag.assign(3, 2);
    assert_eq!(rag.detect_deadlock(), vec![0, 1, 2, 3]);
}

#[test]
fn rag_empty_graph() {
    let rag = ResourceAllocationGraph::new(0, 0);
    assert!(rag.detect_deadlock().is_empty());
}

// ─── Banker's algorithm ────────────────────────────────────────────

#[test]
fn bankers_textbook_safe_sequence() {
    assert_eq!(textbook_bank().is_safe(), Some(vec![1, 3, 4, 0, 2]));
}

#[test]
fn bankers_grant_updates_state() {
    let s = textbook_bank().request(1, vec![1, 0, 2]).unwrap();
    assert_eq!(s.available, vec![2, 3, 0]);
    assert_eq!(s.allocation[1], vec![3, 0, 2]);
    assert_eq!(s.allocation[0], vec![0, 1, 0]);
    assert_eq!(s.max_demand, textbook_bank().max_demand);
}

#[test]
fn bankers_error_exceeds_need() {
    assert_eq!(textbook_bank().request(0, vec![8, 0, 0]).unwrap_err(), "Request exceeds maximum need");
}

#[test]
fn bankers_error_not_available() {
    assert_eq!(textbook_bank().request(0, vec![4, 0, 0]).unwrap_err(), "Resources not available");
}

#[test]
fn bankers_error_unsafe() {
    let s = textbook_bank().request(1, vec![1, 0, 2]).unwrap();
    assert_eq!(s.request(0, vec![0, 2, 0]).unwrap_err(), "Request would lead to unsafe state");
}

#[test]
fn bankers_need_checked_before_availability() {
    // Resource 0 is unavailable and resource 1 exceeds the need: the need check on
    // resource 0 passes, its availability check fails first.
    let b = BankersAlgorithm::new(vec![0, 5], vec![vec![1, 1]], vec![vec![0, 0]]);
    assert_eq!(b.request(0, vec![1, 2]).unwrap_err(), "Resources not available");
}

#[test]
fn bankers_zero_processes_is_safe() {
    let b = BankersAlgorithm::new(vec![1], vec![], vec![]);
    assert_eq!(b.is_safe(), Some(vec![]));
}

// ─── Agent scheduling ──────────────────────────────────────────────

#[test]
fn agent_tie_goes_to_fcfs() {
    let tasks = vec![task("a", 3, 100, &[]), task("b", 1, 100, &[]), task("c", 2, 100, &[])];
    let r = schedule_agent_tasks(&tasks);
    assert_eq!(r.algorithm_used, "FCFS");
    assert_eq!(r.task_order, vec!["a", "b", "c"]);
    assert_eq!(
        r.estimated_completion,
        vec![("a".to_string(), 100), ("b".to_string(), 200), ("c".to_string(), 300)]
    );
    assert_eq!(r.total_time_ms, 300);
}

#[test]
fn agent_sjf_completion_times() {
    let tasks = vec![task("short", 1, 10, &[]), task("long", 1, 1000, &[]), task("medium", 1, 100, &[])];
    let r = schedule_agent_tasks(&tasks);
    assert_eq!(r.algorithm_used, "SJF");
    assert_eq!(r.task_order, vec!["short", "medium", "long"]);
    assert_eq!(
        r.estimated_completion,
        vec![("short".to_string(), 10), ("medium".to_string(), 110), ("long".to_string(), 1110)]
    );
    assert_eq!(r.total_time_ms, 1110);
}

#[test]
fn dependencies_unknown_id_is_ignored() {
    let tasks = vec![task("a", 2, 10, &["ghost"]), task("b", 1, 5, &[])];
    let r = schedule_with_dependencies(&tasks);
    assert_eq!(r.task_order, vec!["b", "a"]);
    assert_eq!(r.estimated_completion, vec![("b".to_string(), 5), ("a".to_string(), 15)]);
    assert_eq!(r.algorithm_used, "DependencyAware-SJF");
}

#[test]
fn dependencies_cycle_is_left_out() {
    let tasks = vec![task("x", 1, 10, &["y"]), task("y", 1, 10, &["x"]), task("z", 1, 7, &[])];
    let r = schedule_with_dependencies(&tasks);
    assert_eq!(r.task_order, vec!["z"]);
    assert_eq!(r.total_time_ms, 7);
}

#[test]
fn dependencies_self_dependency_never_runs() {
    let tasks = vec![task("t", 1, 10, &["t"])];
    let r = schedule_with_dependencies(&tasks);
    assert!(r.task_order.is_empty());
    assert_eq!(r.total_time_ms, 0);
}

#[test]
fn dependencies_ties_by_duration_then_readiness() {
    let tasks = vec![task("p", 1, 50, &[]), task("q", 1, 20, &[]), task("r", 1, 20, &[])];
    let r = schedule_with_dependencies(&tasks);
    assert_eq!(r.task_order, vec!["q", "r", "p"]);
}

#[test]
fn dependencies_duplicate_id_means_first_task() {
    let tasks = vec![task("dup", 5, 1, &[]), task("dup", 1, 1, &[]), task("w", 0, 1, &["dup"])];
    let r = schedule_with_dependencies(&tasks);
    assert_eq!(r.task_order, vec!["dup", "dup", "w"]);
}

#[test]
fn dependencies_every_task_after_its_dependencies() {
    let tasks = vec![
        task("deploy", 0, 5, &["test", "package"]),
        task("test", 2, 30, &["build"]),
        task("package", 1, 10, &["build"]),
        task("build", 3, 20, &[]),
        task("lint", 0, 1, &[]),
    ];
    let r = schedule_with_dependencies(&tasks);
    assert_eq!(r.task_order, vec!["lint", "build", "package", "test", "deploy"]);
    let pos = |id: &str| r.task_order.iter().position(|t| t == id).unwrap();
    for t in &tasks {
        for d in &t.dependencies {
            assert!(pos(d) < pos(&t.id));
        }
    }
    assert_eq!(r.total_time_ms, 66);
}

// ─── Disk scheduling ───────────────────────────────────────────────

const REQUESTS: [usize; 8] = [98, 183, 37, 122, 14, 124, 65, 67];

#[test]
fn disk_sstf_exact() {
    let r = disk_sstf(53, &REQUESTS);
    assert_eq!(r.order, vec![65, 67, 37, 14, 98, 122, 124, 183]);
    assert_eq!(r.total_seek_distance, 236);
}

#[test]
fn disk_scan_right_exact() {
    let r = disk_scan(53, &REQUESTS, 199, true);
    assert_eq!(r.order, vec![65, 67, 98, 122, 124, 183, 37, 14]);
    assert_eq!(r.seek_sequence, vec![12, 2, 31, 24, 2, 59, 16, 162, 23]);
    assert_eq!(r.total_seek_distance, 331);
}

#[test]
fn disk_scan_left_exact() {
    let r = disk_scan(53, &REQUESTS, 199, false);
    assert_eq!(r.order, vec![37, 14, 65, 67, 98, 122, 124, 183]);
    assert_eq!(r.seek_sequence, vec![16, 23, 14, 65, 2, 31, 24, 2, 59]);
    assert_eq!(r.total_seek_distance, 236);
}

#[test]
fn disk_cscan_exact() {
    let r = disk_cscan(53, &REQUESTS, 199);
    assert_eq!(r.order, vec![65, 67, 98, 122, 124, 183, 14, 37]);
    assert_eq!(r.seek_sequence, vec![12, 2, 31, 24, 2, 59, 215, 14, 23]);
    assert_eq!(r.total_seek_distance, 382);
}

#[test]
fn disk_no_requests() {
    for r in [disk_fcfs(10, &[]), disk_sstf(10, &[]), disk_scan(10, &[], 100, true), disk_cscan(10, &[], 100)] {
        assert!(r.order.is_empty());
        assert!(r.seek_sequence.is_empty());
        assert_eq!(r.total_seek_distance, 0);
    }
}

// ─── CPU scheduling ────────────────────────────────────────────────

#[test]
fn fcfs_idle_gap_and_total_time() {
    let procs = vec![
        Process { id: 7, arrival_time: 10, burst_time: 2, priority: 0 },
        Process { id: 3, arrival_time: 0, burst_time: 4, priority: 0 },
    ];
    let r = fcfs(&procs);
    assert_eq!(r.order, vec![3, 7]);
    assert_eq!(r.turnaround_times, vec![(3, 4), (7, 2)]);
    assert_eq!(r.waiting_times, vec![(3, 0), (7, 0)]);
    assert_eq!(r.total_time, 12);
}

#[test]
fn sjf_exact_waiting_times() {
    let procs = vec![
        Process { id: 0, arrival_time: 0, burst_time: 8, priority: 0 },
        Process { id: 1, arrival_time: 1, burst_time: 4, priority: 0 },
        Process { id: 2, arrival_time: 2, burst_time: 2, priority: 0 },
    ];
    let r = sjf(&procs);
    assert_eq!(r.waiting_times, vec![(0, 0), (2, 6), (1, 9)]);
    assert_eq!(r.total_time, 14);
}

#[test]
fn priority_ties_go_to_first_listed() {
    let procs = vec![
        Process { id: 0, arrival_time: 0, burst_time: 1, priority: 2 },
        Process { id: 1, arrival_time: 0, burst_time: 1, priority: 2 },
    ];
    assert_eq!(priority_schedule(&procs).order, vec![0, 1]);
}

#[test]
fn round_robin_waiting_and_response() {
    let procs = vec![
        Process { id: 0, arrival_time: 0, burst_time: 4, priority: 0 },
        Process { id: 1, arrival_time: 0, burst_time: 3, priority: 0 },
    ];
    let r = round_robin(&procs, 2);
    assert_eq!(r.order, vec![0, 1, 0, 1]);
    assert_eq!(r.waiting_times, vec![(0, 2), (1, 4)]);
    assert_eq!(r.response_times, vec![(0, 0), (1, 2)]);
    assert_eq!(r.total_time, 7);
}

#[test]
fn schedulers_on_no_processes() {
    let r = fcfs(&[]);
    assert!(r.order.is_empty());
    assert_eq!(r.total_time, 0);
    assert_eq!(round_robin(&[], 3).total_time, 0);
}

// ─── Memory ────────────────────────────────────────────────────────

#[test]
fn page_table_address_past_the_table() {
    let mut pt = PageTable::new(4, 4, 1024);
    pt.map(3, 1);
    assert_eq!(pt.translate(3 * 1024 + 7), Some(1024 + 7));
    assert_eq!(pt.translate(4 * 1024), None);
}

#[test]
fn page_table_remap_replaces_frame() {
    let mut pt = PageTable::new(2, 4, 100);
    pt.map(1, 2);
    pt.map(1, 3);
    assert_eq!(pt.translate(150), Some(350));
}

#[test]
fn tlb_lookup_refreshes_recency() {
    let mut tlb = Tlb::new(2);
    tlb.insert(0, 10);
    tlb.insert(1, 20);
    assert_eq!(tlb.lookup(0), Some(10));
    tlb.insert(2, 30);
    assert_eq!(tlb.lookup(1), None);
    assert_eq!(tlb.lookup(0), Some(10));
    assert_eq!(tlb.lookup(2), Some(30));
    assert_eq!((tlb.hits, tlb.misses), (3, 1));
}

#[test]
fn tlb_insert_existing_page_updates_frame() {
    let mut tlb = Tlb::new(2);
    tlb.insert(5, 1);
    tlb.insert(5, 9);
    assert_eq!(tlb.entries.len(), 1);
    assert_eq!(tlb.lookup(5), Some(9));
}

// ─── Page replacement ──────────────────────────────────────────────

#[test]
fn clock_exact_faults_and_frames() {
    let mut clock = ClockReplacement::new(3);
    let refs = [1, 2, 3, 4, 1, 2, 5, 1, 2, 3, 4, 5];
    assert_eq!(simulate_replacement(&mut clock, &refs), 9);
    assert_eq!(clock.frames(), vec![5, 3, 4]);
    assert_eq!(clock.faults(), 9);
}

#[test]
fn replacement_names() {
    assert_eq!(FifoReplacement::new(1).name(), "FIFO");
    assert_eq!(LruReplacement::new(1).name(), "LRU");
    assert_eq!(ClockReplacement::new(1).name(), "Clock");
    assert_eq!(OptimalReplacement::new(1, vec![]).name(), "Optimal");
}

#[test]
fn lru_more_frames_never_more_faults_here() {
    let refs = [1, 2, 3, 4, 1, 2, 5, 1, 2, 3, 4, 5];
    let mut lru3 = LruReplacement::new(3);
    let mut lru4 = LruReplacement::new(4);
    let f3 = simulate_replacement(&mut lru3, &refs);
    let f4 = simulate_replacement(&mut lru4, &refs);
    assert_eq!((f3, f4), (10, 8));
}

#[test]
fn optimal_textbook_string() {
    let refs = [7, 0, 1, 2, 0, 3, 0, 4, 2, 3, 0, 3, 2, 1, 2, 0, 1, 7, 0, 1];
    let mut opt = OptimalReplacement::new(3, refs.to_vec());
    assert_eq!(simulate_replacement(&mut opt, &refs), 9);
    let mut fifo = FifoReplacement::new(3);
    assert_eq!(simulate_replacement(&mut fifo, &refs), 15);
    let mut lru = LruReplacement::new(3);
    assert_eq!(simulate_replacement(&mut lru, &refs), 12);
}

#[test]
fn repeated_page_is_one_fault() {
    let mut fifo = FifoReplacement::new(2);
    assert!(fifo.access(4));
    assert!(!fifo.access(4));
    assert_eq!(fifo.faults(), 1);
}

// ─── Demand paging ─────────────────────────────────────────────────

#[test]
fn demand_pager_evicts_oldest_frame() {
    let mut pager = DemandPager::new(2);
    let (faults, total) = pager.process(&[1, 2, 3, 1]);
    assert_eq!((faults, total), (4, 4));
    assert!(!pager.access(3));
    assert!(!pager.access(1));
    assert!(pager.access(2));
}

#[test]
fn demand_pager_counts_accumulate() {
    let mut pager = DemandPager::new(3);
    pager.process(&[1, 2]);
    let (faults, total) = pager.process(&[1, 3]);
    assert_eq!((faults, total), (3, 4));
}

// ─── Synchronization ───────────────────────────────────────────────

#[test]
fn mutex_stranger_cannot_unlock() {
    let mut m = Mutex::new();
    assert!(m.lock(1));
    assert_eq!(m.unlock(2), None);
    assert!(m.is_locked());
    assert_eq!(m.unlock(1), None);
    assert!(!m.is_locked());
}

#[test]
fn semaphore_signal_without_waiters() {
    let mut sem = Semaphore::new(0);
    assert_eq!(sem.signal(), None);
    assert_eq!(sem.available(), 1);
    assert!(sem.wait(5));
    assert_eq!(sem.waiting_count(), 0);
}

#[test]
fn producer_consumer_full_and_empty() {
    let mut pc = ProducerConsumer::new(1);
    assert!(pc.produce(1, 5));
    assert!(!pc.produce(2, 6));
    assert_eq!(pc.len(), 1);
    assert_eq!(pc.consume(3), Some(5));
    assert_eq!(pc.consume(3), None);
    assert_eq!(pc.len(), 0);
}

#[test]
fn lru_frames_with_fewer_frames_are_kept_with_more() {
    let refs = [7, 0, 1, 2, 0, 3, 0, 4, 2, 3, 0, 3, 2];
    let mut lru3 = LruReplacement::new(3);
    let mut lru4 = LruReplacement::new(4);
    simulate_replacement(&mut lru3, &refs);
    simulate_replacement(&mut lru4, &refs);
    let bigger = lru4.frames();
    for p in lru3.frames() {
        assert!(bigger.contains(&p));
    }
    assert!(lru4.faults() <= lru3.faults());
}

#[test]
fn sjf_waits_no_more_than_fcfs_when_all_arrive_together() {
    let procs = vec![
        Process { id: 0, arrival_time: 0, burst_time: 9, priority: 0 },
        Process { id: 1, arrival_time: 0, burst_time: 3, priority: 0 },
        Process { id: 2, arrival_time: 0, burst_time: 5, priority: 0 },
        Process { id: 3, arrival_time: 0, burst_time: 1, priority: 0 },
    ];
    let total = |r: &lau_operating_systems::scheduling::ScheduleResult| -> u64 {
        r.waiting_times.iter().map(|&(_, w)| w).sum()
    };
    let s = sjf(&procs);
    let f = fcfs(&procs);
    assert_eq!(s.order, vec![3, 1, 2, 0]);
    assert_eq!(total(&s), 0 + 1 + 4 + 9);
    assert_eq!(total(&f), 0 + 9 + 12 + 17);
}

#[test]
fn sstf_serves_every_request_once() {
    let r = disk_sstf(100, &[5, 200, 5, 150, 99]);
    let mut served = r.order.clone();
    served.sort();
    assert_eq!(served, vec![5, 5, 99, 150, 200]);
    assert_eq!(r.order, vec![99, 150, 200, 5, 5]);
}

#[test]
fn round_robin_response_within_one_quantum_per_other_process() {
    let procs: Vec<Process> = (0..4)
        .map(|i| Process { id: i, arrival_time: i as u64, burst_time: 5, priority: 0 })
        .collect();
    let q = 2u64;
    let r = round_robin(&procs, q);
    for &(_, resp) in &r.response_times {
        assert!(resp <= q * 3);
    }
    assert_eq!(r.response_times, vec![(0, 0), (1, 1), (2, 2), (3, 5)]);
}

#[test]
fn rag_process_waiting_on_deadlocked_resource() {
    let mut rag = ResourceAllocationGraph::new(3, 2);
    rag.request(0, 0);
    rag.assign(0, 1);
    rag.request(1, 1);
    rag.assign(1, 0);
    rag.request(2, 0);
    assert_eq!(rag.detect_deadlock(), vec![0, 1]);
}

#[test]
fn semaphore_queue_matches_negative_value() {
    let mut sem = Semaphore::new(1);
    let check = |s: &Semaphore| assert_eq!(s.waiting_count() as isize, if s.value < 0 { -s.value } else { 0 });
    check(&sem);
    for t in 0..4 {
        sem.wait(t);
        check(&sem);
    }
    assert_eq!(sem.signal(), Some(1));
    check(&sem);
    assert_eq!(sem.signal(), Some(2));
    assert_eq!(sem.signal(), Some(3));
    assert_eq!(sem.signal(), None);
    check(&sem);
    assert_eq!(sem.available(), 1);
}

#[test]
fn demand_pager_faults_like_fifo() {
    let refs = [1, 2, 3, 1, 4, 1, 5, 2, 2, 6, 3, 1];
    for k in 1..5 {
        let mut pager = DemandPager::new(k);
        let mut fifo = FifoReplacement::new(k);
        for &p in &refs {
            assert_eq!(pager.access(p), fifo.access(p));
        }
        assert_eq!(pager.page_faults, fifo.faults());
        assert_eq!(pager.total_accesses, refs.len());
    }
    let mut pager = DemandPager::new(3);
    assert_eq!(pager.process(&[1, 2, 3, 1, 4, 1, 5]).0, 6);
}

#[test]
fn optimal_no_more_faults_than_the_others() {
    let strings: [&[usize]; 3] = [
        &[7, 0, 1, 2, 0, 3, 0, 4, 2, 3, 0, 3, 2, 1, 2, 0, 1, 7, 0, 1],
        &[1, 2, 3, 4, 1, 2, 5, 1, 2, 3, 4, 5],
        &[3, 3, 1, 4, 1, 5, 9, 2, 6, 5, 3, 5, 8, 9, 7, 9, 3, 2, 3, 8],
    ];
    for refs in strings {
        for k in 1..6 {
            let opt = simulate_replacement(&mut OptimalReplacement::new(k, refs.to_vec()), refs);
            assert!(opt <= simulate_replacement(&mut FifoReplacement::new(k), refs));
            assert!(opt <= simulate_replacement(&mut LruReplacement::new(k), refs));
            assert!(opt <= simulate_replacement(&mut ClockReplacement::new(k), refs));
            let more = simulate_replacement(&mut OptimalReplacement::new(k + 1, refs.to_vec()), refs);
            assert!(more <= opt);
        }
    }
}

#[test]
fn prelude_names_the_main_items() {
    let r = lau_operating_systems::prelude::fcfs(&[lau_operating_systems::prelude::Process { id: 4, arrival_time: 0, burst_time: 2, priority: 0 }]);
    assert_eq!(r.order, vec![4]);
}
