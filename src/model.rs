use vstd::prelude::*;

verus! {

/// Largest number of allocations that one executor may hold.
pub const MAX_ALLOCATIONS_PER_EXECUTOR: usize = 20;

/// A function that an executor is permitted to run. A missing version stands
/// for whatever version of the graph is current.
pub struct FunctionURI {
    pub namespace: String,
    pub compute_graph_name: String,
    pub compute_fn_name: String,
    pub version: Option<u64>,
}

/// A worker; with an allowlist it runs only the functions the list names.
pub struct ExecutorMetadata {
    pub id: String,
    pub function_allowlist: Option<Vec<FunctionURI>>,
}

#[derive(PartialEq, Eq, Structural, Clone, Copy, Debug)]
pub enum TaskStatus {
    Pending,
    Running,
    Completed,
}

#[derive(PartialEq, Eq, Structural, Clone, Copy, Debug)]
pub enum TaskOutcome {
    Unknown,
    Success,
    Failure,
}

impl TaskOutcome {
    pub open spec fn spec_is_terminal(&self) -> bool {
        !(self is Unknown)
    }

    #[verifier::when_used_as_spec(spec_is_terminal)]
    pub fn is_terminal(&self) -> (r: bool)
        ensures
            r == self.spec_is_terminal(),
    {
        match self {
            TaskOutcome::Unknown => false,
            _ => true,
        }
    }
}

/// One activation of a function node within an invocation.
pub struct Task {
    pub id: String,
    pub namespace: String,
    pub compute_graph_name: String,
    pub compute_fn_name: String,
    pub invocation_id: String,
    pub graph_version: u64,
    pub status: TaskStatus,
    pub outcome: TaskOutcome,
}

impl Task {
    /// A copy of the task with every field kept.
    pub fn duplicate(&self) -> (r: Task)
        ensures
            r == *self,
    {
        Task {
            id: self.id.clone(),
            namespace: self.namespace.clone(),
            compute_graph_name: self.compute_graph_name.clone(),
            compute_fn_name: self.compute_fn_name.clone(),
            invocation_id: self.invocation_id.clone(),
            graph_version: self.graph_version,
            status: self.status,
            outcome: self.outcome,
        }
    }
}

/// A binding of a task to an executor.
pub struct Allocation {
    pub namespace: String,
    pub compute_graph: String,
    pub compute_fn: String,
    pub invocation_id: String,
    pub task_id: String,
    pub executor_id: String,
}

impl Allocation {
    /// A copy of the allocation with every field kept.
    pub fn duplicate(&self) -> (r: Allocation)
        ensures
            r == *self,
    {
        Allocation {
            namespace: self.namespace.clone(),
            compute_graph: self.compute_graph.clone(),
            compute_fn: self.compute_fn.clone(),
            invocation_id: self.invocation_id.clone(),
            task_id: self.task_id.clone(),
            executor_id: self.executor_id.clone(),
        }
    }
}

/// A function node of a compute graph.
pub struct Node {
    pub name: String,
}

impl Node {
    pub fn name(&self) -> (r: &String)
        ensures
            r == &self.name,
    {
        &self.name
    }
}

/// One version of a compute graph and its function nodes.
pub struct ComputeGraphVersion {
    pub namespace: String,
    pub compute_graph_name: String,
    pub version: u64,
    pub nodes: Vec<Node>,
}

/// What the scheduler sees of the cluster: executors, tasks, allocations, the
/// ids of tasks that wait for an executor, and the compute graph versions.
pub struct InMemoryState {
    pub executors: Vec<ExecutorMetadata>,
    pub tasks: Vec<Task>,
    pub allocations: Vec<Allocation>,
    pub unallocated_tasks: Vec<String>,
    pub compute_graph_versions: Vec<ComputeGraphVersion>,
}

/// Declares that an executor is gone for good.
pub struct ExecutorTombstone {
    pub executor_id: String,
}

/// An event that the scheduler reacts to.
pub enum ChangeType {
    ExecutorAdded(String),
    ExecutorRemoved(String),
    TombStoneExecutor(ExecutorTombstone),
    InvokeComputeGraph(String),
    TaskFinished(String),
}

pub struct ReductionTasks {
    pub new_reduction_tasks: Vec<Task>,
    pub processed_reduction_tasks: Vec<String>,
}

impl ReductionTasks {
    pub fn empty() -> (r: ReductionTasks)
        ensures
            r.new_reduction_tasks@.len() == 0,
            r.processed_reduction_tasks@.len() == 0,
    {
        ReductionTasks { new_reduction_tasks: Vec::new(), processed_reduction_tasks: Vec::new() }
    }
}

/// The delta that the caller applies to the durable state.
pub struct SchedulerUpdateRequest {
    pub new_allocations: Vec<Allocation>,
    pub remove_allocations: Vec<Allocation>,
    pub updated_tasks: Vec<Task>,
    pub updated_invocations_states: Vec<String>,
    pub reduction_tasks: ReductionTasks,
    pub remove_executors: Vec<String>,
}

#[derive(PartialEq, Eq, Structural, Clone, Copy, Debug)]
pub enum SchedulerError {
    UnhandledChangeType,
    ComputeGraphNotFound,
    ComputeFnNotFound,
}

// ---------------------------------------------------------------------------
// Mathematical model
// ---------------------------------------------------------------------------

/// The allowlist rule: function, graph and namespace agree, and the entry's
/// version, or the graph's current one where it gives none, is the graph's.
pub open spec fn uri_matches(
    u: FunctionURI,
    namespace: Seq<char>,
    graph: Seq<char>,
    func: Seq<char>,
    version: u64,
) -> bool {
    &&& u.compute_fn_name@ == func
    &&& u.compute_graph_name@ == graph
    &&& u.namespace@ == namespace
    &&& match u.version {
        Some(v) => v == version,
        None => true,
    }
}

/// An executor may run a function if it has no allowlist, or some entry of
/// its allowlist matches the function.
pub open spec fn admits(
    e: ExecutorMetadata,
    namespace: Seq<char>,
    graph: Seq<char>,
    func: Seq<char>,
    version: u64,
) -> bool {
    match e.function_allowlist {
        None => true,
        Some(l) => exists|i: int|
            0 <= i < l@.len() && uri_matches(#[trigger] l@[i], namespace, graph, func, version),
    }
}

/// An executor may run the task's function at the task's graph version.
pub open spec fn admits_task(e: ExecutorMetadata, t: Task) -> bool {
    admits(e, t.namespace@, t.compute_graph_name@, t.compute_fn_name@, t.graph_version)
}

/// Number of allocations held by the executor `e`.
pub open spec fn alloc_count(allocs: Seq<Allocation>, e: Seq<char>) -> nat
    decreases allocs.len(),
{
    if allocs.len() == 0 {
        0
    } else {
        alloc_count(allocs.drop_last(), e) + if allocs.last().executor_id@ == e {
            1nat
        } else {
            0nat
        }
    }
}

/// Whether the graph version is the one the task names.
pub open spec fn graph_is_for(g: ComputeGraphVersion, t: Task) -> bool {
    &&& g.namespace@ == t.namespace@
    &&& g.compute_graph_name@ == t.compute_graph_name@
    &&& g.version == t.graph_version
}

pub open spec fn has_node(g: ComputeGraphVersion, name: Seq<char>) -> bool {
    exists|i: int| 0 <= i < g.nodes@.len() && (#[trigger] g.nodes@[i]).name@ == name
}

pub open spec fn graph_known(graphs: Seq<ComputeGraphVersion>, t: Task) -> bool {
    exists|i: int| 0 <= i < graphs.len() && graph_is_for(#[trigger] graphs[i], t)
}

/// The task's graph version is indexed and holds the task's function.
pub open spec fn placeable(graphs: Seq<ComputeGraphVersion>, t: Task) -> bool {
    exists|i: int|
        0 <= i < graphs.len() && graph_is_for(#[trigger] graphs[i], t) && has_node(
            graphs[i],
            t.compute_fn_name@,
        )
}

pub open spec fn views_of(ss: Seq<String>) -> Seq<Seq<char>> {
    ss.map_values(|s: String| s@)
}

impl InMemoryState {
    /// The graph index is keyed by namespace, graph name and version; the
    /// task index by id; the waiting index names each task once; a task is
    /// held by at most one allocation, and a waiting task by none.
    pub open spec fn wf(&self) -> bool {
        &&& forall|i: int, j: int|
            0 <= i < j < self.compute_graph_versions@.len() ==> !(
            #[trigger] self.compute_graph_versions@[i].namespace@
                == #[trigger] self.compute_graph_versions@[j].namespace@
                && self.compute_graph_versions@[i].compute_graph_name@
                == self.compute_graph_versions@[j].compute_graph_name@
                && self.compute_graph_versions@[i].version
                == self.compute_graph_versions@[j].version)
        &&& forall|i: int, j: int|
            0 <= i < j < self.tasks@.len() ==> #[trigger] self.tasks@[i].id@
                != #[trigger] self.tasks@[j].id@
        &&& forall|i: int, j: int|
            0 <= i < j < self.unallocated_tasks@.len() ==> #[trigger] self.unallocated_tasks@[i]@
                != #[trigger] self.unallocated_tasks@[j]@
        &&& self.exclusive()
    }

    /// No two allocations hold one task, and no waiting task is allocated.
    pub open spec fn exclusive(&self) -> bool {
        &&& forall|i: int, j: int|
            0 <= i < j < self.allocations@.len() ==> #[trigger] self.allocations@[i].task_id@
                != #[trigger] self.allocations@[j].task_id@
        &&& forall|i: int, j: int|
            0 <= i < self.allocations@.len() && 0 <= j < self.unallocated_tasks@.len()
                ==> #[trigger] self.allocations@[i].task_id@
                != #[trigger] self.unallocated_tasks@[j]@
    }

    /// An empty index.
    pub fn new() -> (r: InMemoryState)
        ensures
            r.wf(),
            r.executors@.len() == 0,
            r.tasks@.len() == 0,
            r.allocations@.len() == 0,
            r.unallocated_tasks@.len() == 0,
            r.compute_graph_versions@.len() == 0,
    {
        InMemoryState {
            executors: Vec::new(),
            tasks: Vec::new(),
            allocations: Vec::new(),
            unallocated_tasks: Vec::new(),
            compute_graph_versions: Vec::new(),
        }
    }
}


/// Appending an allocation adds one to its executor's count and leaves every
/// other count as it was.
pub proof fn lemma_alloc_count_push(allocs: Seq<Allocation>, a: Allocation, e: Seq<char>)
    ensures
        alloc_count(allocs.push(a), e) == alloc_count(allocs, e) + if a.executor_id@ == e {
            1nat
        } else {
            0nat
        },
{
    assert(allocs.push(a).drop_last() =~= allocs);
}

pub open spec fn allocation_for(a: Allocation, t: Task) -> bool {
    &&& a.namespace@ == t.namespace@
    &&& a.compute_graph@ == t.compute_graph_name@
    &&& a.compute_fn@ == t.compute_fn_name@
    &&& a.invocation_id@ == t.invocation_id@
    &&& a.task_id@ == t.id@
}

/// Every executor that may run the task holds as many allocations as allowed.
pub open spec fn saturated_for(execs: Seq<ExecutorMetadata>, allocs: Seq<Allocation>, t: Task) -> bool {
    forall|x: int|
        0 <= x < execs.len() && admits_task(#[trigger] execs[x], t) ==> alloc_count(
            allocs,
            execs[x].id@,
        ) >= MAX_ALLOCATIONS_PER_EXECUTOR
}

/// A reason for an allocation pass to leave the task waiting: it has already
/// finished, its graph version or function is unknown, or no executor that may
/// run it has room.
pub open spec fn left_waiting(s: InMemoryState, t: Task) -> bool {
    ||| t.outcome.spec_is_terminal()
    ||| !placeable(s.compute_graph_versions@, t)
    ||| saturated_for(s.executors@, s.allocations@, t)
}

/// Some task of `updated` has the id.
pub open spec fn has_id(updated: Seq<Task>, id: Seq<char>) -> bool {
    exists|k: int| 0 <= k < updated.len() && (#[trigger] updated[k]).id@ == id
}

/// Each updated task is one of the first `n` candidates, unfinished, with a
/// known graph version and function, now Running.
#[verifier::opaque]
pub open spec fn placed_from(
    updated: Seq<Task>,
    candidates: Seq<Task>,
    n: int,
    graphs: Seq<ComputeGraphVersion>,
) -> bool {
    forall|k: int|
        0 <= k < updated.len() ==> exists|j: int|
            0 <= j < n && j < candidates.len() && #[trigger] updated[k] == with_status(
                candidates[j],
                TaskStatus::Running,
            ) && !candidates[j].outcome.spec_is_terminal() && placeable(graphs, candidates[j])
}

/// The k-th allocation binds the k-th updated task to an executor that may
/// run it.
#[verifier::opaque]
pub open spec fn bound_to_admitting(
    allocs: Seq<Allocation>,
    updated: Seq<Task>,
    execs: Seq<ExecutorMetadata>,
) -> bool {
    &&& allocs.len() == updated.len()
    &&& forall|k: int|
        0 <= k < updated.len() ==> allocation_for(#[trigger] allocs[k], updated[k]) && exists|
            x: int,
        |
            0 <= x < execs.len() && execs[x].id@ == allocs[k].executor_id@ && admits_task(
                execs[x],
                updated[k],
            )
}

/// No executor went over the limit: each count is within it, or as it was.
#[verifier::opaque]
pub open spec fn within_capacity(after: Seq<Allocation>, before: Seq<Allocation>) -> bool {
    forall|e: Seq<char>|
        #[trigger] alloc_count(after, e) <= MAX_ALLOCATIONS_PER_EXECUTOR || alloc_count(after, e)
            == alloc_count(before, e)
}

/// Each of the first `n` candidates was allocated, or had a reason to wait.
#[verifier::opaque]
pub open spec fn explained(s: InMemoryState, candidates: Seq<Task>, updated: Seq<Task>, n: int) -> bool {
    forall|j: int|
        0 <= j < n && j < candidates.len() ==> has_id(updated, candidates[j].id@) || left_waiting(
            s,
            #[trigger] candidates[j],
        )
}

/// The waiting index lost exactly the ids of the updated tasks.
#[verifier::opaque]
pub open spec fn waiting_index_kept(after: Seq<String>, before: Seq<String>, updated: Seq<Task>) -> bool {
    forall|s: Seq<char>|
        #[trigger] views_of(after).contains(s) <==> (views_of(before).contains(s) && !has_id(
            updated,
            s,
        ))
}

/// The task index holds each updated task, and every task it held before
/// whose id was not updated.
#[verifier::opaque]
pub open spec fn tasks_recorded(after: Seq<Task>, before: Seq<Task>, updated: Seq<Task>) -> bool {
    &&& forall|k: int| 0 <= k < updated.len() ==> after.contains(#[trigger] updated[k])
    &&& forall|i: int|
        0 <= i < before.len() ==> has_id(updated, before[i].id@) || after.contains(
            #[trigger] before[i],
        )
}

/// What an allocation pass over `candidates` leaves behind: the allocations it
/// made, in order, with the tasks it moved to Running beside them.
pub open spec fn pass_result(
    before: InMemoryState,
    after: InMemoryState,
    candidates: Seq<Task>,
    allocs: Seq<Allocation>,
    updated: Seq<Task>,
) -> bool {
    &&& after.wf()
    &&& after.executors == before.executors
    &&& after.compute_graph_versions == before.compute_graph_versions
    &&& after.allocations@ == before.allocations@ + allocs
    &&& placed_from(updated, candidates, candidates.len() as int, before.compute_graph_versions@)
    &&& bound_to_admitting(allocs, updated, before.executors@)
    &&& within_capacity(after.allocations@, before.allocations@)
    &&& explained(after, candidates, updated, candidates.len() as int)
    &&& waiting_index_kept(after.unallocated_tasks@, before.unallocated_tasks@, updated)
    &&& tasks_recorded(after.tasks@, before.tasks@, updated)
}

/// The task with the given id, if the task index holds one.
pub open spec fn task_with_id(tasks: Seq<Task>, id: Seq<char>) -> Option<Task> {
    if exists|i: int| 0 <= i < tasks.len() && (#[trigger] tasks[i]).id@ == id {
        Some(tasks[choose|i: int| 0 <= i < tasks.len() && (#[trigger] tasks[i]).id@ == id])
    } else {
        None
    }
}

/// The tasks that the ids name, in the order of the ids; an id with no task is
/// passed over.
pub open spec fn tasks_named(tasks: Seq<Task>, ids: Seq<String>) -> Seq<Task>
    decreases ids.len(),
{
    if ids.len() == 0 {
        seq![]
    } else {
        let rest = tasks_named(tasks, ids.drop_last());
        match task_with_id(tasks, ids.last()@) {
            Some(t) => rest.push(t),
            None => rest,
        }
    }
}

/// The tasks waiting for an executor, in the order of the waiting index.
pub open spec fn waiting_tasks(s: InMemoryState) -> Seq<Task> {
    tasks_named(s.tasks@, s.unallocated_tasks@)
}

/// The allocations held by the executor `e`, in order.
pub open spec fn allocs_on(allocs: Seq<Allocation>, e: Seq<char>) -> Seq<Allocation>
    decreases allocs.len(),
{
    if allocs.len() == 0 {
        seq![]
    } else {
        let rest = allocs_on(allocs.drop_last(), e);
        if allocs.last().executor_id@ == e {
            rest.push(allocs.last())
        } else {
            rest
        }
    }
}

/// For each allocation, in order, its task set back to Pending; an allocation
/// whose task is not in the index is passed over.
pub open spec fn reclaimed(allocs: Seq<Allocation>, tasks: Seq<Task>) -> Seq<Task>
    decreases allocs.len(),
{
    if allocs.len() == 0 {
        seq![]
    } else {
        let rest = reclaimed(allocs.drop_last(), tasks);
        match task_with_id(tasks, allocs.last().task_id@) {
            Some(t) => rest.push(with_status(t, TaskStatus::Pending)),
            None => rest,
        }
    }
}

pub open spec fn with_status(t: Task, s: TaskStatus) -> Task {
    Task { status: s, ..t }
}

impl InMemoryState {
    /// Index of the task with the given id, if there is one.
    pub fn find_task(&self, id: &String) -> (r: Option<usize>)
        requires
            self.wf(),
        ensures
            r is None ==> task_with_id(self.tasks@, id@) is None,
            r matches Some(i) ==> i < self.tasks@.len() && task_with_id(self.tasks@, id@) == Some(
                self.tasks@[i as int],
            ),
    {
        let mut i: usize = 0;
        while i < self.tasks.len()
            invariant
                i <= self.tasks@.len(),
                self.wf(),
                forall|k: int| 0 <= k < i ==> (#[trigger] self.tasks@[k]).id@ != id@,
            decreases self.tasks@.len() - i,
        {
            if self.tasks[i].id == *id {
                proof {
                    assert((self.tasks@[i as int]).id@ == id@);
                    let c = choose|c: int| 0 <= c < self.tasks@.len() && (#[trigger] self.tasks@[c]).id@ == id@;
                    if c != i {
                        if c < i {
                            assert(self.tasks@[c].id@ != self.tasks@[i as int].id@);
                        } else {
                            assert(self.tasks@[i as int].id@ != self.tasks@[c].id@);
                        }
                    }
                }
                return Some(i);
            }
            i = i + 1;
        }
        None
    }

    /// Number of allocations that the executor holds.
    pub fn count_allocations(&self, executor_id: &String) -> (r: usize)
        ensures
            r == alloc_count(self.allocations@, executor_id@),
    {
        let mut n: usize = 0;
        let mut i: usize = 0;
        while i < self.allocations.len()
            invariant
                i <= self.allocations@.len(),
                n == alloc_count(self.allocations@.subrange(0, i as int), executor_id@),
                n <= i,
            decreases self.allocations@.len() - i,
        {
            proof {
                let s = self.allocations@.subrange(0, i as int + 1);
                assert(s.drop_last() =~= self.allocations@.subrange(0, i as int));
            }
            if self.allocations[i].executor_id == *executor_id {
                n = n + 1;
            }
            i = i + 1;
        }
        proof {
            assert(self.allocations@.subrange(0, i as int) =~= self.allocations@);
        }
        n
    }

    /// Puts the task in the task index, in place of the one with its id if
    /// there is one.
    #[verifier::spinoff_prover]
    #[verifier::rlimit(40)]
    pub fn upsert_task(&mut self, t: Task)
        requires
            old(self).wf(),
        ensures
            final(self).wf(),
            final(self).executors == old(self).executors,
            final(self).allocations == old(self).allocations,
            final(self).unallocated_tasks == old(self).unallocated_tasks,
            final(self).compute_graph_versions == old(self).compute_graph_versions,
            exists|i: int| 0 <= i < final(self).tasks@.len() && final(self).tasks@[i] == t,
            forall|i: int|
                0 <= i < old(self).tasks@.len() && old(self).tasks@[i].id@ != t.id@ ==> exists|
                    j: int,
                |
                    0 <= j < final(self).tasks@.len() && final(self).tasks@[j] == old(
                        self,
                    ).tasks@[i],
            forall|j: int|
                0 <= j < final(self).tasks@.len() ==> final(self).tasks@[j] == t || exists|
                    i: int,
                | 0 <= i < old(self).tasks@.len() && old(self).tasks@[i] == final(self).tasks@[j],
    {
        let mut i: usize = 0;
        while i < self.tasks.len()
            invariant
                i <= self.tasks@.len(),
                forall|k: int| 0 <= k < i ==> self.tasks@[k].id@ != t.id@,
            ensures
                i <= self.tasks@.len(),
                forall|k: int| 0 <= k < i ==> self.tasks@[k].id@ != t.id@,
                i < self.tasks@.len() ==> self.tasks@[i as int].id@ == t.id@,
            decreases self.tasks@.len() - i,
        {
            if self.tasks[i].id == t.id {
                break;
            }
            i = i + 1;
        }
        let ghost before = self.tasks@;
        if i < self.tasks.len() {
            self.tasks.set(i, t);
            proof {
                assert forall|k: int| 0 <= k < self.tasks@.len() implies #[trigger] self.tasks@[k].id@
                    == before[k].id@ by {}
                assert(self.tasks@[i as int] == t);
                assert forall|a: int| 0 <= a < before.len() && before[a].id@ != t.id@ implies exists|
                    j: int,
                | 0 <= j < self.tasks@.len() && self.tasks@[j] == before[a] by {
                    assert(a != i);
                    assert(self.tasks@[a] == before[a]);
                }
                assert forall|j: int| 0 <= j < self.tasks@.len() implies #[trigger] self.tasks@[j]
                    == t || exists|a: int| 0 <= a < before.len() && before[a] == self.tasks@[j] by {
                    if j != i {
                        assert(before[j] == self.tasks@[j]);
                    }
                }
            }
        } else {
            self.tasks.push(t);
            proof {
                assert forall|k: int| 0 <= k < before.len() implies #[trigger] self.tasks@[k]
                    == before[k] by {}
                assert(self.tasks@[i as int] == t);
                assert forall|a: int| 0 <= a < before.len() && before[a].id@ != t.id@ implies exists|
                    j: int,
                | 0 <= j < self.tasks@.len() && self.tasks@[j] == before[a] by {
                    assert(self.tasks@[a] == before[a]);
                }
                assert forall|j: int| 0 <= j < self.tasks@.len() implies #[trigger] self.tasks@[j]
                    == t || exists|a: int| 0 <= a < before.len() && before[a] == self.tasks@[j] by {
                    if j != i {
                        assert(before[j] == self.tasks@[j]);
                    }
                }
            }
        }
    }

    /// Takes the id out of the index of tasks that wait for an executor.
    pub fn remove_unallocated(&mut self, id: &String)
        requires
            old(self).wf(),
        ensures
            final(self).executors == old(self).executors,
            final(self).allocations == old(self).allocations,
            final(self).tasks == old(self).tasks,
            final(self).compute_graph_versions == old(self).compute_graph_versions,
            forall|s: Seq<char>|
                views_of(final(self).unallocated_tasks@).contains(s) <==> (views_of(
                    old(self).unallocated_tasks@,
                ).contains(s) && s != id@),
            forall|i: int, j: int|
                0 <= i < j < final(self).unallocated_tasks@.len()
                    ==> #[trigger] final(self).unallocated_tasks@[i]@
                    != #[trigger] final(self).unallocated_tasks@[j]@,
    {
        let ghost before = self.unallocated_tasks@;
        let mut i: usize = 0;
        while i < self.unallocated_tasks.len()
            invariant
                i <= self.unallocated_tasks@.len(),
                forall|k: int| 0 <= k < i ==> self.unallocated_tasks@[k]@ != id@,
            ensures
                i <= self.unallocated_tasks@.len(),
                forall|k: int| 0 <= k < i ==> self.unallocated_tasks@[k]@ != id@,
                i < self.unallocated_tasks@.len() ==> self.unallocated_tasks@[i as int]@ == id@,
            decreases self.unallocated_tasks@.len() - i,
        {
            if self.unallocated_tasks[i] == *id {
                break;
            }
            i = i + 1;
        }
        if i < self.unallocated_tasks.len() {
            self.unallocated_tasks.remove(i);
            proof {
                let after = self.unallocated_tasks@;
                assert(after =~= before.remove(i as int));
                assert forall|s: Seq<char>|
                    views_of(after).contains(s) <==> (views_of(before).contains(s) && s != id@) by {
                    if views_of(after).contains(s) {
                        let k = choose|k: int| 0 <= k < views_of(after).len() && views_of(after)[k] == s;
                        if k < i {
                            assert(views_of(before)[k] == s);
                        } else {
                            assert(views_of(before)[k + 1] == s);
                        }
                    }
                    if views_of(before).contains(s) && s != id@ {
                        let k = choose|k: int| 0 <= k < views_of(before).len() && views_of(before)[k] == s;
                        assert(k != i);
                        if k < i {
                            assert(views_of(after)[k] == s);
                        } else {
                            assert(views_of(after)[k - 1] == s);
                        }
                    }
                }
            }
        } else {
            proof {
                assert forall|s: Seq<char>|
                    views_of(self.unallocated_tasks@).contains(s) <==> (views_of(before).contains(s)
                        && s != id@) by {
                    if views_of(before).contains(s) {
                        let k = choose|k: int| 0 <= k < views_of(before).len() && views_of(before)[k] == s;
                        assert(before[k]@ != id@);
                    }
                }
            }
        }
    }
}

} // verus!
