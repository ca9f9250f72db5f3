use vstd::prelude::*;

pub mod util;
pub mod disk;
pub mod scheduling;
pub mod feedback;
pub mod feedback_laws;
pub mod synchronization;
pub mod memory;
pub mod virtual_memory;
pub mod page_replacement;
pub mod lru_laws;
pub mod pager_laws;
pub mod optimal_laws;
pub mod deadlock;
pub mod wait_graph;
pub mod sjf_laws;
pub mod rr_laws;
pub mod agent_scheduler;
pub mod dependencies;
pub mod prelude;

verus! {

} // verus!
