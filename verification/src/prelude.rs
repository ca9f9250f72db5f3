pub use crate::scheduling::{Process, ScheduleResult, fcfs, sjf, round_robin, priority_schedule, mlfq};
pub use crate::memory::{PageTableEntry, PageTable, TlbEntry, Tlb};
pub use crate::page_replacement::{
    PageReplacement, FifoReplacement, LruReplacement, ClockReplacement, OptimalReplacement, simulate_replacement,
};
pub use crate::virtual_memory::DemandPager;
pub use crate::disk::{DiskScheduleResult, disk_fcfs, disk_sstf, disk_scan, disk_cscan};
pub use crate::synchronization::{Mutex, Semaphore, ProducerConsumer};
pub use crate::deadlock::{RagEdge, ResourceAllocationGraph, BankersAlgorithm};
pub use crate::agent_scheduler::{AgentTask, AgentScheduleResult, schedule_agent_tasks, schedule_with_dependencies};
