use vstd::prelude::*;

verus! {

/// Most replay tasks that may wait in the pipeline at once.
pub const MAX_PENDING_TASKS: usize = 10;

/// A replay of a graph's past invocations under its current version.
pub struct SystemTask {
    pub namespace: String,
    pub compute_graph_name: String,
    pub graph_version: u64,
    pub restart_key: Option<Vec<u8>>,
    pub num_running_invocations: u64,
    pub waiting_for_running_invocations: bool,
}

/// What one iteration of the replay driver does with the active system tasks.
#[derive(PartialEq, Eq, Structural, Clone, Copy, Debug)]
pub enum IterationStep {
    /// No system task is active.
    Idle,
    /// The first task waits for its running invocations: check completion.
    HandleCompletion,
    /// The first task may queue more invocations: read the pending count.
    ReadPending,
}

/// What the pending count allows.
#[derive(PartialEq, Eq, Structural, Clone, Copy, Debug)]
pub enum Admission {
    /// The pipeline is full: nothing is queued this time.
    Throttled,
    /// Up to `limit` invocations may be queued.
    Queue { limit: usize },
}

pub struct ReplayInvocationsRequest {
    pub namespace: String,
    pub compute_graph_name: String,
    pub graph_version: u64,
    pub invocation_ids: Vec<String>,
    pub restart_key: Option<Vec<u8>>,
}

pub struct RemoveSystemTaskRequest {
    pub namespace: String,
    pub compute_graph_name: String,
}

pub struct UpdateSystemTaskRequest {
    pub namespace: String,
    pub compute_graph_name: String,
    pub waiting_for_running_invocations: bool,
}

/// What completion handling writes for a system task.
pub enum Completion {
    /// The task is gone already: nothing to write.
    Gone,
    /// No invocation runs any more: the task is removed.
    Remove(RemoveSystemTaskRequest),
    /// Invocations still run: the task is marked to wait for them.
    MarkWaiting(UpdateSystemTaskRequest),
    /// Invocations still run and the task already waits: nothing to write.
    KeepWaiting,
}

pub open spec fn step_of(tasks: Seq<SystemTask>) -> IterationStep {
    if tasks.len() == 0 {
        IterationStep::Idle
    } else if tasks[0].waiting_for_running_invocations {
        IterationStep::HandleCompletion
    } else {
        IterationStep::ReadPending
    }
}

pub open spec fn admission_of(pending_tasks: nat) -> Admission {
    if pending_tasks >= MAX_PENDING_TASKS {
        Admission::Throttled
    } else {
        Admission::Queue { limit: (MAX_PENDING_TASKS - pending_tasks) as usize }
    }
}

/// The first step of an iteration: only the first active system task is
/// considered.
pub fn next_step(tasks: &Vec<SystemTask>) -> (r: IterationStep)
    ensures
        r == step_of(tasks@),
{
    if tasks.len() == 0 {
        IterationStep::Idle
    } else if tasks[0].waiting_for_running_invocations {
        IterationStep::HandleCompletion
    } else {
        IterationStep::ReadPending
    }
}

/// How many invocations may be queued, given the replay tasks already pending.
pub fn admission(pending_tasks: usize) -> (r: Admission)
    ensures
        r == admission_of(pending_tasks as nat),
        r matches Admission::Queue { limit } ==> limit > 0 && pending_tasks + limit
            == MAX_PENDING_TASKS,
{
    if pending_tasks >= MAX_PENDING_TASKS {
        Admission::Throttled
    } else {
        Admission::Queue { limit: MAX_PENDING_TASKS - pending_tasks }
    }
}

/// The request that queues a batch of the task's invocations under the graph's
/// current version, and whether the listing is exhausted (no restart key).
pub fn replay_request(
    task: &SystemTask,
    invocation_ids: Vec<String>,
    restart_key: Option<Vec<u8>>,
) -> (r: (ReplayInvocationsRequest, bool))
    ensures
        r.0.namespace@ == task.namespace@,
        r.0.compute_graph_name@ == task.compute_graph_name@,
        r.0.graph_version == task.graph_version,
        r.0.invocation_ids@ == invocation_ids@,
        r.0.restart_key == restart_key,
        r.1 == restart_key is None,
{
    let all_queued = restart_key.is_none();
    (
        ReplayInvocationsRequest {
            namespace: task.namespace.clone(),
            compute_graph_name: task.compute_graph_name.clone(),
            graph_version: task.graph_version,
            invocation_ids,
            restart_key,
        },
        all_queued,
    )
}

/// What completion handling writes, given the task as read again.
pub fn completion(task: &Option<SystemTask>) -> (r: Completion)
    ensures
        task is None <==> r is Gone,
        task matches Some(t) ==> (t.num_running_invocations == 0 <==> r is Remove),
        task matches Some(t) ==> (r matches Completion::Remove(q) ==> q.namespace@ == t.namespace@
            && q.compute_graph_name@ == t.compute_graph_name@),
        task matches Some(t) ==> (r is MarkWaiting <==> (t.num_running_invocations != 0
            && !t.waiting_for_running_invocations)),
        task matches Some(t) ==> (r matches Completion::MarkWaiting(q) ==> q.namespace@
            == t.namespace@ && q.compute_graph_name@ == t.compute_graph_name@
            && q.waiting_for_running_invocations),
{
    match task {
        None => Completion::Gone,
        Some(t) => {
            if t.num_running_invocations == 0 {
                Completion::Remove(
                    RemoveSystemTaskRequest {
                        namespace: t.namespace.clone(),
                        compute_graph_name: t.compute_graph_name.clone(),
                    },
                )
            } else if !t.waiting_for_running_invocations {
                Completion::MarkWaiting(
                    UpdateSystemTaskRequest {
                        namespace: t.namespace.clone(),
                        compute_graph_name: t.compute_graph_name.clone(),
                        waiting_for_running_invocations: true,
                    },
                )
            } else {
                Completion::KeepWaiting
            }
        },
    }
}

} // verus!
