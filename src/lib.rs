//! Task scheduling for a compute-graph engine: placement of waiting tasks on
//! executors under capacity and allowlist rules, reclamation of the work of
//! tombstoned executors, and the decisions of the driver that replays a
//! graph's invocations in bounded batches.

pub mod laws;
pub mod model;
pub mod system_tasks;
pub mod task_allocator;
