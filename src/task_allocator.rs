use crate::model::{
    admits, admits_task, alloc_count, allocation_for, graph_is_for, graph_known, has_node,
    left_waiting, pass_result, saturated_for, has_id, placed_from, bound_to_admitting,
    within_capacity, explained, waiting_index_kept, tasks_recorded, task_with_id, tasks_named,
    waiting_tasks, allocs_on, reclaimed, ExecutorTombstone,
    lemma_alloc_count_push, placeable, uri_matches, views_of, with_status, Allocation, ChangeType,
    ComputeGraphVersion, ExecutorMetadata, FunctionURI, InMemoryState, Node, ReductionTasks,
    SchedulerError, SchedulerUpdateRequest, Task, TaskStatus, MAX_ALLOCATIONS_PER_EXECUTOR,
};
use rand::seq::SliceRandom;
use vstd::prelude::*;

verus! {

/// Ids of the executors that may run a function.
pub struct FilteredExecutors {
    pub executors: Vec<String>,
}

/// What an allocation pass produced.
pub struct TaskPlacementResult {
    pub new_allocations: Vec<Allocation>,
    pub remove_allocations: Vec<Allocation>,
    pub updated_tasks: Vec<Task>,
}

/// Places waiting tasks on executors and reclaims the allocations of
/// executors that are gone.
pub struct TaskAllocationProcessor {}

/// Ids, in order, of the executors picked by `idx` that admit the function.
pub open spec fn admitted_ids(
    execs: Seq<ExecutorMetadata>,
    idx: Seq<usize>,
    namespace: Seq<char>,
    graph: Seq<char>,
    func: Seq<char>,
    version: u64,
) -> Seq<Seq<char>>
    decreases idx.len(),
{
    if idx.len() == 0 {
        seq![]
    } else {
        let rest = admitted_ids(execs, idx.drop_last(), namespace, graph, func, version);
        let e = execs[idx.last() as int];
        if admits(e, namespace, graph, func, version) {
            rest.push(e.id@)
        } else {
            rest
        }
    }
}

/// Each admitted id belongs to a picked executor that admits the function,
/// and there are none exactly when no picked executor does.
proof fn lemma_admitted_ids(
    execs: Seq<ExecutorMetadata>,
    idx: Seq<usize>,
    namespace: Seq<char>,
    graph: Seq<char>,
    func: Seq<char>,
    version: u64,
)
    requires
        forall|k: int| 0 <= k < idx.len() ==> (idx[k] as int) < execs.len(),
    ensures
        forall|m: int|
            0 <= m < admitted_ids(execs, idx, namespace, graph, func, version).len() ==> exists|
                k: int,
            |
                0 <= k < idx.len() && #[trigger] admitted_ids(
                    execs,
                    idx,
                    namespace,
                    graph,
                    func,
                    version,
                )[m] == execs[idx[k] as int].id@ && admits(
                    execs[idx[k] as int],
                    namespace,
                    graph,
                    func,
                    version,
                ),
        admitted_ids(execs, idx, namespace, graph, func, version).len() == 0 <==> forall|k: int|
            0 <= k < idx.len() ==> !admits(
                execs[#[trigger] idx[k] as int],
                namespace,
                graph,
                func,
                version,
            ),
    decreases idx.len(),
{
    if idx.len() > 0 {
        let p = idx.drop_last();
        lemma_admitted_ids(execs, p, namespace, graph, func, version);
        let r = admitted_ids(execs, idx, namespace, graph, func, version);
        let rp = admitted_ids(execs, p, namespace, graph, func, version);
        assert forall|m: int| 0 <= m < r.len() implies exists|k: int|
            0 <= k < idx.len() && #[trigger] r[m] == execs[idx[k] as int].id@ && admits(
                execs[idx[k] as int],
                namespace,
                graph,
                func,
                version,
            ) by {
            if m < rp.len() {
                let k = choose|k: int|
                    0 <= k < p.len() && rp[m] == execs[p[k] as int].id@ && admits(
                        execs[p[k] as int],
                        namespace,
                        graph,
                        func,
                        version,
                    );
                assert(p[k] == idx[k]);
            } else {
                assert(idx[idx.len() - 1] == idx.last());
            }
        }
        if r.len() == 0 {
            assert forall|k: int| 0 <= k < idx.len() implies !admits(
                execs[#[trigger] idx[k] as int],
                namespace,
                graph,
                func,
                version,
            ) by {
                if k < p.len() {
                    assert(p[k] == idx[k]);
                }
            }
        } else {
            if rp.len() == 0 {
                assert(!admits(execs[idx[idx.len() - 1] as int], namespace, graph, func, version)
                    ==> r.len() == 0);
            } else {
                let k = choose|k: int|
                    0 <= k < p.len() && admits(
                        execs[#[trigger] p[k] as int],
                        namespace,
                        graph,
                        func,
                        version,
                    );
                assert(p[k] == idx[k]);
            }
        }
    }
}

/// Whether the allowlist entry names the graph's node, under the version rule.
pub fn func_matches(func_uri: &FunctionURI, compute_graph: &ComputeGraphVersion, node: &Node) -> (r:
    bool)
    ensures
        r == uri_matches(
            *func_uri,
            compute_graph.namespace@,
            compute_graph.compute_graph_name@,
            node.name@,
            compute_graph.version,
        ),
{
    let version_ok = match func_uri.version {
        Some(v) => v == compute_graph.version,
        None => true,
    };
    func_uri.compute_fn_name == *node.name() && func_uri.compute_graph_name
        == compute_graph.compute_graph_name && version_ok && func_uri.namespace
        == compute_graph.namespace
}

/// Relies on rand's `SliceRandom::choose` with the thread-local generator:
/// `None` for an empty slice, else one of its elements.
#[verifier::external_body]
fn choose_executor(ids: &Vec<String>) -> (r: Option<String>)
    ensures
        ids@.len() == 0 <==> r is None,
        r matches Some(s) ==> exists|i: int| 0 <= i < ids@.len() && ids@[i]@ == s@,
{
    ids.choose(&mut rand::thread_rng()).cloned()
}

impl TaskAllocationProcessor {
    pub fn new() -> Self {
        TaskAllocationProcessor {  }
    }

    /// Ids of the executors, among those picked by `eligible`, that may run
    /// the node of the graph, in the order of `eligible`.
    fn filter_executors(
        &self,
        compute_graph: &ComputeGraphVersion,
        node: &Node,
        executors: &Vec<ExecutorMetadata>,
        eligible: &Vec<usize>,
    ) -> (r: FilteredExecutors)
        requires
            forall|k: int| 0 <= k < eligible@.len() ==> (eligible@[k] as int) < executors@.len(),
        ensures
            views_of(r.executors@) == admitted_ids(
                executors@,
                eligible@,
                compute_graph.namespace@,
                compute_graph.compute_graph_name@,
                node.name@,
                compute_graph.version,
            ),
    {
        let ghost ns = compute_graph.namespace@;
        let ghost gn = compute_graph.compute_graph_name@;
        let ghost fnn = node.name@;
        let ghost v = compute_graph.version;
        let mut filtered: Vec<String> = Vec::new();
        let mut i: usize = 0;
        while i < eligible.len()
            invariant
                i <= eligible@.len(),
                ns == compute_graph.namespace@,
                gn == compute_graph.compute_graph_name@,
                fnn == node.name@,
                v == compute_graph.version,
                forall|k: int| 0 <= k < eligible@.len() ==> (eligible@[k] as int) < executors@.len(),
                views_of(filtered@) == admitted_ids(
                    executors@,
                    eligible@.subrange(0, i as int),
                    ns,
                    gn,
                    fnn,
                    v,
                ),
            decreases eligible@.len() - i,
        {
            let executor = &executors[eligible[i]];
            let admitted = match &executor.function_allowlist {
                Some(allowlist) => {
                    let mut found = false;
                    let mut j: usize = 0;
                    while j < allowlist.len()
                        invariant_except_break
                            !found,
                        invariant
                            j <= allowlist@.len(),
                            ns == compute_graph.namespace@,
                            gn == compute_graph.compute_graph_name@,
                            fnn == node.name@,
                            v == compute_graph.version,
                            forall|m: int|
                                0 <= m < j ==> !uri_matches(#[trigger] allowlist@[m], ns, gn, fnn, v),
                        ensures
                            found ==> exists|m: int|
                                0 <= m < allowlist@.len() && uri_matches(
                                    #[trigger] allowlist@[m],
                                    ns,
                                    gn,
                                    fnn,
                                    v,
                                ),
                            !found ==> forall|m: int|
                                0 <= m < allowlist@.len() ==> !uri_matches(
                                    #[trigger] allowlist@[m],
                                    ns,
                                    gn,
                                    fnn,
                                    v,
                                ),
                        decreases allowlist@.len() - j,
                    {
                        if func_matches(&allowlist[j], compute_graph, node) {
                            assert(uri_matches(allowlist@[j as int], ns, gn, fnn, v));
                            found = true;
                            break;
                        }
                        j = j + 1;
                    }
                    found
                },
                None => true,
            };
            proof {
                let s = eligible@.subrange(0, i as int + 1);
                assert(s.drop_last() =~= eligible@.subrange(0, i as int));
                assert(s.last() == eligible@[i as int]);
            }
            if admitted {
                let ghost before = filtered@;
                filtered.push(executor.id.clone());
                proof {
                    assert(views_of(filtered@) =~= views_of(before).push(executor.id@));
                }
            }
            i = i + 1;
        }
        proof {
            assert(eligible@.subrange(0, i as int) =~= eligible@);
        }
        FilteredExecutors { executors: filtered }
    }

    /// Indices of the executors that hold fewer allocations than the limit.
    fn executors_with_capacity(&self, indexes: &InMemoryState) -> (r: Vec<usize>)
        ensures
            forall|k: int|
                0 <= k < r@.len() ==> (#[trigger] r@[k] as int) < indexes.executors@.len()
                    && alloc_count(indexes.allocations@, indexes.executors@[r@[k] as int].id@)
                    < MAX_ALLOCATIONS_PER_EXECUTOR,
            forall|x: int|
                0 <= x < indexes.executors@.len() && alloc_count(
                    indexes.allocations@,
                    #[trigger] indexes.executors@[x].id@,
                ) < MAX_ALLOCATIONS_PER_EXECUTOR ==> exists|k: int|
                    0 <= k < r@.len() && r@[k] as int == x,
    {
        let mut r: Vec<usize> = Vec::new();
        let mut i: usize = 0;
        while i < indexes.executors.len()
            invariant
                i <= indexes.executors@.len(),
                forall|k: int|
                    0 <= k < r@.len() ==> (#[trigger] r@[k] as int) < indexes.executors@.len()
                        && alloc_count(indexes.allocations@, indexes.executors@[r@[k] as int].id@)
                        < MAX_ALLOCATIONS_PER_EXECUTOR,
                forall|x: int|
                    0 <= x < i && alloc_count(
                        indexes.allocations@,
                        #[trigger] indexes.executors@[x].id@,
                    ) < MAX_ALLOCATIONS_PER_EXECUTOR ==> exists|k: int|
                        0 <= k < r@.len() && r@[k] as int == x,
            decreases indexes.executors@.len() - i,
        {
            let count = indexes.count_allocations(&indexes.executors[i].id);
            let ghost before = r@;
            if count < MAX_ALLOCATIONS_PER_EXECUTOR {
                r.push(i);
                proof {
                    assert(r@[r@.len() - 1] as int == i as int);
                    assert forall|x: int|
                        0 <= x < i && alloc_count(
                            indexes.allocations@,
                            #[trigger] indexes.executors@[x].id@,
                        ) < MAX_ALLOCATIONS_PER_EXECUTOR implies exists|k: int|
                            0 <= k < r@.len() && r@[k] as int == x by {
                        let k = choose|k: int| 0 <= k < before.len() && before[k] as int == x;
                        assert(r@[k] == before[k]);
                    }
                }
            }
            i = i + 1;
        }
        r
    }

    /// Index of the graph version that the task names, if the index holds it.
    fn find_graph(&self, task: &Task, indexes: &InMemoryState) -> (r: Option<usize>)
        ensures
            r is None <==> !graph_known(indexes.compute_graph_versions@, *task),
            r matches Some(i) ==> i < indexes.compute_graph_versions@.len() && graph_is_for(
                indexes.compute_graph_versions@[i as int],
                *task,
            ),
    {
        let mut i: usize = 0;
        while i < indexes.compute_graph_versions.len()
            invariant
                i <= indexes.compute_graph_versions@.len(),
                forall|k: int|
                    0 <= k < i ==> !graph_is_for(
                        #[trigger] indexes.compute_graph_versions@[k],
                        *task,
                    ),
            decreases indexes.compute_graph_versions@.len() - i,
        {
            let g = &indexes.compute_graph_versions[i];
            if g.namespace == task.namespace && g.compute_graph_name == task.compute_graph_name
                && g.version == task.graph_version {
                return Some(i);
            }
            i = i + 1;
        }
        None
    }

    /// Index of the graph's node with the given name, if it has one.
    fn find_node(&self, graph: &ComputeGraphVersion, name: &String) -> (r: Option<usize>)
        ensures
            r is None <==> !has_node(*graph, name@),
            r matches Some(i) ==> i < graph.nodes@.len() && graph.nodes@[i as int].name@
                == name@,
    {
        let mut i: usize = 0;
        while i < graph.nodes.len()
            invariant
                i <= graph.nodes@.len(),
                forall|k: int| 0 <= k < i ==> (#[trigger] graph.nodes@[k]).name@ != name@,
            decreases graph.nodes@.len() - i,
        {
            if graph.nodes[i].name == *name {
                return Some(i);
            }
            i = i + 1;
        }
        None
    }

    /// Picks, at random, an executor among those picked by `eligible` that may
    /// run the task, and binds the task to it.
    fn allocate_task(&self, task: &Task, indexes: &InMemoryState, eligible: &Vec<usize>) -> (r:
        Result<Option<Allocation>, SchedulerError>)
        requires
            indexes.wf(),
            forall|k: int|
                0 <= k < eligible@.len() ==> (eligible@[k] as int) < indexes.executors@.len(),
        ensures
            r == Err::<Option<Allocation>, SchedulerError>(SchedulerError::ComputeGraphNotFound)
                <==> !graph_known(indexes.compute_graph_versions@, *task),
            r == Err::<Option<Allocation>, SchedulerError>(SchedulerError::ComputeFnNotFound) <==> (
            graph_known(indexes.compute_graph_versions@, *task) && !placeable(
                indexes.compute_graph_versions@,
                *task,
            )),
            r is Ok <==> placeable(indexes.compute_graph_versions@, *task),
            r == Ok::<Option<Allocation>, SchedulerError>(None) <==> (placeable(
                indexes.compute_graph_versions@,
                *task,
            ) && forall|k: int|
                0 <= k < eligible@.len() ==> !admits_task(
                    indexes.executors@[#[trigger] eligible@[k] as int],
                    *task,
                )),
            r matches Ok(Some(a)) ==> allocation_for(a, *task) && exists|k: int|
                0 <= k < eligible@.len() && indexes.executors@[#[trigger] eligible@[k] as int].id@
                    == a.executor_id@ && admits_task(indexes.executors@[eligible@[k] as int], *task),
    {
        let gi = match self.find_graph(task, indexes) {
            Some(gi) => gi,
            None => {
                return Err(SchedulerError::ComputeGraphNotFound);
            },
        };
        let graph = &indexes.compute_graph_versions[gi];
        proof {
            let gs = indexes.compute_graph_versions@;
            assert forall|i: int| 0 <= i < gs.len() && graph_is_for(#[trigger] gs[i], *task) implies i
                == gi as int by {
                if i < gi {
                    assert(!(gs[i].namespace@ == gs[gi as int].namespace@ && gs[i].compute_graph_name@
                        == gs[gi as int].compute_graph_name@ && gs[i].version
                        == gs[gi as int].version));
                } else if i > gi {
                    assert(!(gs[gi as int].namespace@ == gs[i].namespace@
                        && gs[gi as int].compute_graph_name@ == gs[i].compute_graph_name@
                        && gs[gi as int].version == gs[i].version));
                }
            }
        }
        let ni = match self.find_node(graph, &task.compute_fn_name) {
            Some(ni) => ni,
            None => {
                return Err(SchedulerError::ComputeFnNotFound);
            },
        };
        let node = &graph.nodes[ni];
        let filtered = self.filter_executors(graph, node, &indexes.executors, eligible);
        proof {
            lemma_admitted_ids(
                indexes.executors@,
                eligible@,
                graph.namespace@,
                graph.compute_graph_name@,
                node.name@,
                graph.version,
            );
        }
        match choose_executor(&filtered.executors) {
            Some(executor_id) => {
                proof {
                    let i = choose|i: int|
                        0 <= i < filtered.executors@.len() && filtered.executors@[i]@
                            == executor_id@;
                    assert(views_of(filtered.executors@)[i] == executor_id@);
                }
                Ok(
                    Some(
                        Allocation {
                            namespace: task.namespace.clone(),
                            compute_graph: task.compute_graph_name.clone(),
                            compute_fn: task.compute_fn_name.clone(),
                            invocation_id: task.invocation_id.clone(),
                            task_id: task.id.clone(),
                            executor_id,
                        },
                    ),
                )
            },
            None => {
                proof {
                    assert(views_of(filtered.executors@).len() == 0);
                }
                Ok(None)
            },
        }
    }
    /// Reacts to a change in the cluster. An executor that joins or leaves
    /// starts an allocation pass over every waiting task. A tombstoned
    /// executor gives back its allocations: each is removed and its task, if
    /// the index holds it, returns to Pending; the executor itself is removed.
    /// The index is not changed on that path. Any other change is refused.
    pub fn invoke(&self, change: &ChangeType, indexes: &mut InMemoryState) -> (r: Result<
        SchedulerUpdateRequest,
        SchedulerError,
    >)
        requires
            old(indexes).wf(),
        ensures
            (change is ExecutorAdded || change is ExecutorRemoved) ==> (r matches Ok(u)
                && u.remove_allocations@.len() == 0 && u.remove_executors@.len() == 0
                && u.updated_invocations_states@.len() == 0
                && u.reduction_tasks.new_reduction_tasks@.len() == 0
                && u.reduction_tasks.processed_reduction_tasks@.len() == 0 && pass_result(
                *old(indexes),
                *final(indexes),
                waiting_tasks(*old(indexes)),
                u.new_allocations@,
                u.updated_tasks@,
            )),
            (change is ExecutorAdded || change is ExecutorRemoved) && old(indexes).executors@.len()
                == 0 ==> (r matches Ok(u) && u.new_allocations@.len() == 0
                && u.updated_tasks@.len() == 0 && *final(indexes) == *old(indexes)),
            change matches ChangeType::TombStoneExecutor(ev) ==> (r matches Ok(u) && *final(indexes)
                == *old(indexes) && u.new_allocations@.len() == 0 && u.remove_allocations@
                == allocs_on(old(indexes).allocations@, ev.executor_id@) && u.updated_tasks@
                == reclaimed(
                allocs_on(old(indexes).allocations@, ev.executor_id@),
                old(indexes).tasks@,
            ) && views_of(u.remove_executors@) == seq![ev.executor_id@]
                && u.updated_invocations_states@.len() == 0
                && u.reduction_tasks.new_reduction_tasks@.len() == 0
                && u.reduction_tasks.processed_reduction_tasks@.len() == 0),
            (change is InvokeComputeGraph || change is TaskFinished) ==> (r == Err::<
                SchedulerUpdateRequest,
                SchedulerError,
            >(SchedulerError::UnhandledChangeType) && *final(indexes) == *old(indexes)),
    {
        match change {
            ChangeType::ExecutorAdded(_) | ChangeType::ExecutorRemoved(_) => {
                match self.allocate(indexes) {
                    Ok(result) => Ok(
                        SchedulerUpdateRequest {
                            new_allocations: result.new_allocations,
                            remove_allocations: result.remove_allocations,
                            updated_tasks: result.updated_tasks,
                            updated_invocations_states: Vec::new(),
                            reduction_tasks: ReductionTasks::empty(),
                            remove_executors: Vec::new(),
                        },
                    ),
                    Err(e) => Err(e),
                }
            },
            ChangeType::TombStoneExecutor(ev) => {
                let (remove_allocations, updated_tasks) = self.reclaim(&ev.executor_id, indexes);
                let mut remove_executors: Vec<String> = Vec::new();
                remove_executors.push(ev.executor_id.clone());
                proof {
                    assert(views_of(remove_executors@) =~= seq![ev.executor_id@]);
                }
                Ok(
                    SchedulerUpdateRequest {
                        new_allocations: Vec::new(),
                        remove_allocations,
                        updated_tasks,
                        updated_invocations_states: Vec::new(),
                        reduction_tasks: ReductionTasks::empty(),
                        remove_executors,
                    },
                )
            },
            _ => Err(SchedulerError::UnhandledChangeType),
        }
    }

    /// The allocations of the executor, and their tasks set back to Pending.
    fn reclaim(&self, executor_id: &String, indexes: &InMemoryState) -> (r: (
        Vec<Allocation>,
        Vec<Task>,
    ))
        requires
            indexes.wf(),
        ensures
            r.0@ == allocs_on(indexes.allocations@, executor_id@),
            r.1@ == reclaimed(r.0@, indexes.tasks@),
    {
        let mut removed: Vec<Allocation> = Vec::new();
        let mut updated: Vec<Task> = Vec::new();
        let mut i: usize = 0;
        while i < indexes.allocations.len()
            invariant
                i <= indexes.allocations@.len(),
                indexes.wf(),
                removed@ == allocs_on(indexes.allocations@.subrange(0, i as int), executor_id@),
                updated@ == reclaimed(removed@, indexes.tasks@),
            decreases indexes.allocations@.len() - i,
        {
            let allocation = &indexes.allocations[i];
            proof {
                let sub = indexes.allocations@.subrange(0, i as int + 1);
                assert(sub.drop_last() =~= indexes.allocations@.subrange(0, i as int));
                assert(sub.last() == indexes.allocations@[i as int]);
            }
            if allocation.executor_id == *executor_id {
                let ghost rm0 = removed@;
                removed.push(allocation.duplicate());
                proof {
                    assert(removed@.drop_last() =~= rm0);
                    assert(removed@.last() == *allocation);
                }
                match indexes.find_task(&allocation.task_id) {
                    Some(ti) => {
                        let task = indexes.tasks[ti].duplicate();
                        updated.push(Task { status: TaskStatus::Pending, ..task });
                    },
                    None => {},
                }
            }
            i = i + 1;
        }
        proof {
            assert(indexes.allocations@.subrange(0, i as int) =~= indexes.allocations@);
        }
        (removed, updated)
    }

    /// An allocation pass over every task in the waiting index, in its order;
    /// ids with no task in the index are passed over.
    pub fn allocate(&self, indexes: &mut InMemoryState) -> (r: Result<
        TaskPlacementResult,
        SchedulerError,
    >)
        requires
            old(indexes).wf(),
        ensures
            r matches Ok(p) && p.remove_allocations@.len() == 0 && pass_result(
                *old(indexes),
                *final(indexes),
                waiting_tasks(*old(indexes)),
                p.new_allocations@,
                p.updated_tasks@,
            ),
            old(indexes).executors@.len() == 0 ==> (r matches Ok(p) && p.new_allocations@.len()
                == 0 && p.updated_tasks@.len() == 0 && *final(indexes) == *old(indexes)),
    {
        let mut tasks: Vec<Task> = Vec::new();
        let mut j: usize = 0;
        while j < indexes.unallocated_tasks.len()
            invariant
                j <= indexes.unallocated_tasks@.len(),
                indexes.wf(),
                tasks@ == tasks_named(indexes.tasks@, indexes.unallocated_tasks@.subrange(0, j as int)),
            decreases indexes.unallocated_tasks@.len() - j,
        {
            proof {
                let sub = indexes.unallocated_tasks@.subrange(0, j as int + 1);
                assert(sub.drop_last() =~= indexes.unallocated_tasks@.subrange(0, j as int));
                assert(sub.last() == indexes.unallocated_tasks@[j as int]);
            }
            match indexes.find_task(&indexes.unallocated_tasks[j]) {
                Some(ti) => {
                    tasks.push(indexes.tasks[ti].duplicate());
                },
                None => {},
            }
            j = j + 1;
        }
        proof {
            assert(indexes.unallocated_tasks@.subrange(0, j as int) =~= indexes.unallocated_tasks@);
            lemma_tasks_named(indexes.tasks@, indexes.unallocated_tasks@);
        }
        if tasks.len() == 0 {
            proof {
                lemma_pass_start(*indexes, tasks@);
                assert(explained(*indexes, tasks@, seq![], tasks@.len() as int));
            }
            return Ok(
                TaskPlacementResult {
                    new_allocations: Vec::new(),
                    remove_allocations: Vec::new(),
                    updated_tasks: Vec::new(),
                },
            );
        }
        self.schedule_tasks(tasks, indexes)
    }

    /// One pass over the given waiting tasks, in order: each task that has not
    /// finished goes to an executor with room that may run it, chosen at
    /// random; the pass stops at the first task that finds no executor with
    /// room at all. Allocations are recorded in the index as they are made,
    /// so later tasks see the counts that earlier ones left.
    pub fn schedule_tasks(&self, tasks: Vec<Task>, indexes: &mut InMemoryState) -> (r: Result<
        TaskPlacementResult,
        SchedulerError,
    >)
        requires
            old(indexes).wf(),
            forall|j: int|
                0 <= j < tasks@.len() ==> views_of(old(indexes).unallocated_tasks@).contains(
                    #[trigger] tasks@[j].id@,
                ),
            forall|i: int, j: int|
                0 <= i < j < tasks@.len() ==> #[trigger] tasks@[i].id@ != #[trigger] tasks@[j].id@,
        ensures
            r matches Ok(p) && p.remove_allocations@.len() == 0 && pass_result(
                *old(indexes),
                *final(indexes),
                tasks@,
                p.new_allocations@,
                p.updated_tasks@,
            ),
            old(indexes).executors@.len() == 0 ==> (r matches Ok(p) && p.new_allocations@.len()
                == 0 && p.updated_tasks@.len() == 0 && *final(indexes) == *old(indexes)),
    {
        let ghost s_in = *indexes;
        let mut allocations: Vec<Allocation> = Vec::new();
        let mut updated_tasks: Vec<Task> = Vec::new();
        proof {
            lemma_pass_start(s_in, tasks@);
            assert(allocations@ =~= seq![]);
            assert(updated_tasks@ =~= seq![]);
            assert(placed_from(updated_tasks@, tasks@, 0, s_in.compute_graph_versions@));
        }
        if indexes.executors.len() == 0 {
            proof {
                assert(allocations@ =~= seq![]);
                assert(updated_tasks@ =~= seq![]);
                lemma_explained_saturated(s_in, tasks@, updated_tasks@, 0);
                assert(placed_from(updated_tasks@, tasks@, tasks@.len() as int, s_in.compute_graph_versions@));
            }
            return Ok(
                TaskPlacementResult {
                    new_allocations: allocations,
                    remove_allocations: Vec::new(),
                    updated_tasks,
                },
            );
        }
        let mut i: usize = 0;
        while i < tasks.len()
            invariant
                i <= tasks@.len(),
                s_in == *old(indexes),
                s_in.wf(),
                indexes.wf(),
                indexes.executors == s_in.executors,
                indexes.compute_graph_versions == s_in.compute_graph_versions,
                indexes.allocations@ == s_in.allocations@ + allocations@,
                forall|i0: int, j0: int|
                    0 <= i0 < j0 < tasks@.len() ==> #[trigger] tasks@[i0].id@
                        != #[trigger] tasks@[j0].id@,
                forall|j: int|
                    i <= j < tasks@.len() ==> views_of(indexes.unallocated_tasks@).contains(
                        #[trigger] tasks@[j].id@,
                    ),
                placed_from(updated_tasks@, tasks@, i as int, s_in.compute_graph_versions@),
                bound_to_admitting(allocations@, updated_tasks@, s_in.executors@),
                within_capacity(indexes.allocations@, s_in.allocations@),
                explained(*indexes, tasks@, updated_tasks@, i as int),
                waiting_index_kept(
                    indexes.unallocated_tasks@,
                    s_in.unallocated_tasks@,
                    updated_tasks@,
                ),
                tasks_recorded(indexes.tasks@, s_in.tasks@, updated_tasks@),
            ensures
                explained(*indexes, tasks@, updated_tasks@, tasks@.len() as int),
            decreases tasks@.len() - i,
        {
            let task = &tasks[i];
            let ghost s0 = *indexes;
            if task.outcome.is_terminal() {
                proof {
                    lemma_explained_waiting(s0, tasks@, updated_tasks@, i as int);
                    lemma_placed_from_grow(updated_tasks@, tasks@, i as int, s_in.compute_graph_versions@);
                }
                i = i + 1;
                continue;
            }
            let eligible = self.executors_with_capacity(indexes);
            if eligible.len() == 0 {
                proof {
                    lemma_explained_saturated(s0, tasks@, updated_tasks@, i as int);
                }
                break;
            }
            match self.allocate_task(task, indexes, &eligible) {
                Ok(Some(allocation)) => {
                    let ghost u0 = updated_tasks@;
                    let ghost a0 = allocations@;
                    proof {
                        let ke = choose|ke: int|
                            0 <= ke < eligible@.len() && s0.executors@[#[trigger] eligible@[ke] as int].id@
                                == allocation.executor_id@ && admits_task(
                                s0.executors@[eligible@[ke] as int],
                                tasks@[i as int],
                            );
                        assert(alloc_count(s0.allocations@, allocation.executor_id@)
                            < MAX_ALLOCATIONS_PER_EXECUTOR);
                        lemma_ids_of_placed_differ(u0, tasks@, i as int, s_in.compute_graph_versions@);
                        lemma_bound_step(a0, u0, s_in.executors@, allocation, tasks@[i as int], eligible@[ke] as int);
                    }
                    let running = record_allocation(indexes, task, allocation.duplicate());
                    allocations.push(allocation);
                    updated_tasks.push(running);
                    proof {
                        assert(indexes.allocations@ =~= s_in.allocations@ + allocations@);
                        lemma_capacity_step(s0.allocations@, s_in.allocations@, allocation);
                        lemma_placed_from_step(u0, tasks@, i as int, s_in.compute_graph_versions@);
                        lemma_explained_step(s0, *indexes, tasks@, u0, i as int, allocation);
                        lemma_waiting_index_step(
                            indexes.unallocated_tasks@,
                            s0.unallocated_tasks@,
                            s_in.unallocated_tasks@,
                            u0,
                            running,
                        );
                        lemma_tasks_recorded_step(indexes.tasks@, s0.tasks@, s_in.tasks@, u0, running);
                        assert forall|j: int| i + 1 <= j < tasks@.len() implies views_of(
                            indexes.unallocated_tasks@,
                        ).contains(#[trigger] tasks@[j].id@) by {
                            assert(tasks@[i as int].id@ != tasks@[j].id@);
                        }
                    }
                },
                Ok(None) => {
                    proof {
                        let t = tasks@[i as int];
                        assert forall|x: int|
                            0 <= x < s0.executors@.len() && admits_task(
                                #[trigger] s0.executors@[x],
                                t,
                            ) implies alloc_count(s0.allocations@, s0.executors@[x].id@)
                            >= MAX_ALLOCATIONS_PER_EXECUTOR by {
                            if alloc_count(s0.allocations@, s0.executors@[x].id@)
                                < MAX_ALLOCATIONS_PER_EXECUTOR {
                                let k = choose|k: int|
                                    0 <= k < eligible@.len() && eligible@[k] as int == x;
                                assert(!admits_task(s0.executors@[eligible@[k] as int], t));
                            }
                        }
                        assert(saturated_for(s0.executors@, s0.allocations@, t));
                        lemma_explained_waiting(s0, tasks@, updated_tasks@, i as int);
                        lemma_placed_from_grow(updated_tasks@, tasks@, i as int, s_in.compute_graph_versions@);
                    }
                },
                Err(_) => {
                    proof {
                        lemma_explained_waiting(s0, tasks@, updated_tasks@, i as int);
                        lemma_placed_from_grow(updated_tasks@, tasks@, i as int, s_in.compute_graph_versions@);
                    }
                },
            }
            i = i + 1;
        }
        proof {
            lemma_placed_from_mono(updated_tasks@, tasks@, i as int, tasks@.len() as int, s_in.compute_graph_versions@);
        }
        Ok(
            TaskPlacementResult {
                new_allocations: allocations,
                remove_allocations: Vec::new(),
                updated_tasks,
            },
        )
    }
}

/// Binds the task to the allocation in the index: the task leaves the waiting
/// index, the allocation is added, and the task is stored as Running.
fn record_allocation(indexes: &mut InMemoryState, task: &Task, allocation: Allocation) -> (running:
    Task)
    requires
        old(indexes).wf(),
        views_of(old(indexes).unallocated_tasks@).contains(task.id@),
        allocation.task_id@ == task.id@,
    ensures
        final(indexes).wf(),
        final(indexes).executors == old(indexes).executors,
        final(indexes).compute_graph_versions == old(indexes).compute_graph_versions,
        final(indexes).allocations@ == old(indexes).allocations@.push(allocation),
        running == with_status(*task, TaskStatus::Running),
        forall|s: Seq<char>|
            #[trigger] views_of(final(indexes).unallocated_tasks@).contains(s) <==> (views_of(
                old(indexes).unallocated_tasks@,
            ).contains(s) && s != task.id@),
        final(indexes).tasks@.contains(running),
        forall|u: Task|
            old(indexes).tasks@.contains(u) && u.id@ != task.id@
                ==> #[trigger] final(indexes).tasks@.contains(u),
{
    let ghost s0 = *indexes;
    indexes.remove_unallocated(&task.id);
    proof {
        lemma_waiting_removed_keeps_wf(s0, *indexes);
    }
    let ghost s1 = *indexes;
    indexes.allocations.push(allocation);
    proof {
        lemma_allocating_waiting_keeps_wf(s0, s1, *indexes, allocation);
    }
    let ghost s2 = *indexes;
    let running = Task { status: TaskStatus::Running, ..task.duplicate() };
    indexes.upsert_task(running.duplicate());
    proof {
        assert forall|u: Task|
            s0.tasks@.contains(u) && u.id@ != task.id@ implies #[trigger] indexes.tasks@.contains(
            u,
        ) by {
            let i = choose|i: int| 0 <= i < s2.tasks@.len() && s2.tasks@[i] == u;
            let j = choose|j: int| 0 <= j < indexes.tasks@.len() && indexes.tasks@[j] == s2.tasks@[i];
            assert(indexes.tasks@[j] == u);
        }
        let i = choose|i: int| 0 <= i < indexes.tasks@.len() && indexes.tasks@[i] == running;
        assert(indexes.tasks@[i] == running);
    }
    running
}

/// The tasks named by distinct ids carry distinct ids, each one of them.
proof fn lemma_tasks_named(tasks: Seq<Task>, ids: Seq<String>)
    requires
        forall|i: int, j: int| 0 <= i < j < ids.len() ==> #[trigger] ids[i]@ != #[trigger] ids[j]@,
    ensures
        forall|k: int|
            0 <= k < tasks_named(tasks, ids).len() ==> views_of(ids).contains(
                #[trigger] tasks_named(tasks, ids)[k].id@,
            ),
        forall|i: int, j: int|
            0 <= i < j < tasks_named(tasks, ids).len() ==> #[trigger] tasks_named(tasks, ids)[i].id@
                != #[trigger] tasks_named(tasks, ids)[j].id@,
    decreases ids.len(),
{
    if ids.len() > 0 {
        let p = ids.drop_last();
        lemma_tasks_named(tasks, p);
        let w = tasks_named(tasks, ids);
        let wp = tasks_named(tasks, p);
        assert forall|k: int| 0 <= k < views_of(p).len() implies views_of(p)[k] == views_of(ids)[k]
            && views_of(p)[k] != ids.last()@ by {
            assert(p[k] == ids[k]);
            assert(ids[k]@ != ids[ids.len() - 1]@);
        }
        match task_with_id(tasks, ids.last()@) {
            Some(t) => {
                assert(t.id@ == ids.last()@);
                assert(views_of(ids)[ids.len() - 1] == ids.last()@);
                assert forall|k: int| 0 <= k < w.len() implies views_of(ids).contains(
                    #[trigger] w[k].id@,
                ) by {
                    if k < wp.len() {
                        assert(w[k] == wp[k]);
                        let m = choose|m: int| 0 <= m < views_of(p).len() && views_of(p)[m] == wp[k].id@;
                        assert(views_of(ids)[m] == wp[k].id@);
                    }
                }
                assert forall|i: int, j: int| 0 <= i < j < w.len() implies #[trigger] w[i].id@
                    != #[trigger] w[j].id@ by {
                    assert(w[i] == wp[i]);
                    if j < wp.len() {
                        assert(w[j] == wp[j]);
                    } else {
                        assert(views_of(p).contains(wp[i].id@));
                    }
                }
            },
            None => {
                assert forall|k: int| 0 <= k < w.len() implies views_of(ids).contains(
                    #[trigger] w[k].id@,
                ) by {
                    let m = choose|m: int| 0 <= m < views_of(p).len() && views_of(p)[m] == wp[k].id@;
                    assert(views_of(ids)[m] == wp[k].id@);
                }
            },
        }
    }
}

/// At the start of a pass every predicate holds of the empty result.
proof fn lemma_pass_start(s: InMemoryState, tasks: Seq<Task>)
    ensures
        forall|n: int| #[trigger] placed_from(seq![], tasks, n, s.compute_graph_versions@),
        bound_to_admitting(seq![], seq![], s.executors@),
        within_capacity(s.allocations@, s.allocations@),
        explained(s, tasks, seq![], 0),
        waiting_index_kept(s.unallocated_tasks@, s.unallocated_tasks@, seq![]),
        tasks_recorded(s.tasks@, s.tasks@, seq![]),
        s.allocations@ + Seq::<Allocation>::empty() == s.allocations@,
{
    reveal(placed_from);
    reveal(bound_to_admitting);
    reveal(within_capacity);
    reveal(explained);
    reveal(waiting_index_kept);
    reveal(tasks_recorded);
    assert(s.allocations@ + Seq::<Allocation>::empty() =~= s.allocations@);
    assert forall|i: int| 0 <= i < s.tasks@.len() implies has_id(seq![], s.tasks@[i].id@)
        || s.tasks@.contains(#[trigger] s.tasks@[i]) by {
        assert(s.tasks@[i] == s.tasks@[i]);
    }
}

proof fn lemma_placed_from_mono(
    updated: Seq<Task>,
    candidates: Seq<Task>,
    n: int,
    m: int,
    graphs: Seq<ComputeGraphVersion>,
)
    requires
        placed_from(updated, candidates, n, graphs),
        n <= m,
    ensures
        placed_from(updated, candidates, m, graphs),
{
    reveal(placed_from);
    assert forall|k: int| 0 <= k < updated.len() implies exists|j: int|
        0 <= j < m && j < candidates.len() && #[trigger] updated[k] == with_status(
            candidates[j],
            TaskStatus::Running,
        ) && !candidates[j].outcome.spec_is_terminal() && placeable(graphs, candidates[j]) by {
        let j = choose|j: int|
            0 <= j < n && j < candidates.len() && #[trigger] updated[k] == with_status(
                candidates[j],
                TaskStatus::Running,
            ) && !candidates[j].outcome.spec_is_terminal() && placeable(graphs, candidates[j]);
    }
}

proof fn lemma_placed_from_grow(
    updated: Seq<Task>,
    candidates: Seq<Task>,
    n: int,
    graphs: Seq<ComputeGraphVersion>,
)
    requires
        placed_from(updated, candidates, n, graphs),
    ensures
        placed_from(updated, candidates, n + 1, graphs),
{
    reveal(placed_from);
    assert forall|k: int| 0 <= k < updated.len() implies exists|j: int|
        0 <= j < n + 1 && j < candidates.len() && #[trigger] updated[k] == with_status(
            candidates[j],
            TaskStatus::Running,
        ) && !candidates[j].outcome.spec_is_terminal() && placeable(graphs, candidates[j]) by {
        let j = choose|j: int|
            0 <= j < n && j < candidates.len() && #[trigger] updated[k] == with_status(
                candidates[j],
                TaskStatus::Running,
            ) && !candidates[j].outcome.spec_is_terminal() && placeable(graphs, candidates[j]);
    }
}

proof fn lemma_placed_from_step(
    updated: Seq<Task>,
    candidates: Seq<Task>,
    n: int,
    graphs: Seq<ComputeGraphVersion>,
)
    requires
        placed_from(updated, candidates, n, graphs),
        0 <= n < candidates.len(),
        !candidates[n].outcome.spec_is_terminal(),
        placeable(graphs, candidates[n]),
    ensures
        placed_from(
            updated.push(with_status(candidates[n], TaskStatus::Running)),
            candidates,
            n + 1,
            graphs,
        ),
{
    lemma_placed_from_grow(updated, candidates, n, graphs);
    reveal(placed_from);
    let u = updated.push(with_status(candidates[n], TaskStatus::Running));
    assert forall|k: int| 0 <= k < u.len() implies exists|j: int|
        0 <= j < n + 1 && j < candidates.len() && #[trigger] u[k] == with_status(
            candidates[j],
            TaskStatus::Running,
        ) && !candidates[j].outcome.spec_is_terminal() && placeable(graphs, candidates[j]) by {
        if k < updated.len() {
            assert(u[k] == updated[k]);
        } else {
            assert(u[k] == with_status(candidates[n], TaskStatus::Running));
        }
    }
}

/// Tasks already placed carry ids other than the next candidate's.
proof fn lemma_ids_of_placed_differ(
    updated: Seq<Task>,
    candidates: Seq<Task>,
    n: int,
    graphs: Seq<ComputeGraphVersion>,
)
    requires
        placed_from(updated, candidates, n, graphs),
        0 <= n < candidates.len(),
        forall|i0: int, j0: int|
            0 <= i0 < j0 < candidates.len() ==> #[trigger] candidates[i0].id@
                != #[trigger] candidates[j0].id@,
    ensures
        !has_id(updated, candidates[n].id@),
{
    reveal(placed_from);
    if has_id(updated, candidates[n].id@) {
        let k = choose|k: int| 0 <= k < updated.len() && (#[trigger] updated[k]).id@ == candidates[n].id@;
        let j = choose|j: int|
            0 <= j < n && j < candidates.len() && #[trigger] updated[k] == with_status(
                candidates[j],
                TaskStatus::Running,
            ) && !candidates[j].outcome.spec_is_terminal() && placeable(graphs, candidates[j]);
        assert(candidates[j].id@ != candidates[n].id@);
    }
}

proof fn lemma_bound_step(
    allocs: Seq<Allocation>,
    updated: Seq<Task>,
    execs: Seq<ExecutorMetadata>,
    a: Allocation,
    t: Task,
    x: int,
)
    requires
        bound_to_admitting(allocs, updated, execs),
        allocation_for(a, t),
        0 <= x < execs.len(),
        execs[x].id@ == a.executor_id@,
        admits_task(execs[x], t),
    ensures
        bound_to_admitting(
            allocs.push(a),
            updated.push(with_status(t, TaskStatus::Running)),
            execs,
        ),
{
    reveal(bound_to_admitting);
    let al = allocs.push(a);
    let u = updated.push(with_status(t, TaskStatus::Running));
    assert forall|k: int| 0 <= k < u.len() implies allocation_for(#[trigger] al[k], u[k]) && exists|
        y: int,
    | 0 <= y < execs.len() && execs[y].id@ == al[k].executor_id@ && admits_task(execs[y], u[k]) by {
        if k < updated.len() {
            assert(al[k] == allocs[k]);
            assert(u[k] == updated[k]);
        } else {
            assert(execs[x].id@ == al[k].executor_id@);
        }
    }
}

proof fn lemma_capacity_step(cur: Seq<Allocation>, before: Seq<Allocation>, a: Allocation)
    requires
        within_capacity(cur, before),
        alloc_count(cur, a.executor_id@) < MAX_ALLOCATIONS_PER_EXECUTOR,
    ensures
        within_capacity(cur.push(a), before),
{
    reveal(within_capacity);
    assert forall|e: Seq<char>|
        #[trigger] alloc_count(cur.push(a), e) <= MAX_ALLOCATIONS_PER_EXECUTOR || alloc_count(
            cur.push(a),
            e,
        ) == alloc_count(before, e) by {
        lemma_alloc_count_push(cur, a, e);
        assert(alloc_count(cur, e) <= MAX_ALLOCATIONS_PER_EXECUTOR || alloc_count(cur, e)
            == alloc_count(before, e));
    }
}

/// A task left waiting for a reason keeps the candidates explained.
proof fn lemma_explained_waiting(s: InMemoryState, candidates: Seq<Task>, updated: Seq<Task>, n: int)
    requires
        explained(s, candidates, updated, n),
        0 <= n < candidates.len(),
        left_waiting(s, candidates[n]),
    ensures
        explained(s, candidates, updated, n + 1),
{
    reveal(explained);
}

/// When no executor has room, every candidate is explained.
proof fn lemma_explained_saturated(
    s: InMemoryState,
    candidates: Seq<Task>,
    updated: Seq<Task>,
    n: int,
)
    requires
        explained(s, candidates, updated, n),
        forall|x: int|
            0 <= x < s.executors@.len() ==> alloc_count(
                s.allocations@,
                (#[trigger] s.executors@[x]).id@,
            ) >= MAX_ALLOCATIONS_PER_EXECUTOR,
    ensures
        explained(s, candidates, updated, candidates.len() as int),
{
    reveal(explained);
    assert forall|j: int|
        0 <= j < candidates.len() implies has_id(updated, candidates[j].id@) || left_waiting(
        s,
        #[trigger] candidates[j],
    ) by {
        if j >= n {
            assert(saturated_for(s.executors@, s.allocations@, candidates[j]));
        }
    }
}

/// Allocating the next candidate keeps the candidates explained: the counts
/// only grow, so a saturated executor stays saturated.
proof fn lemma_explained_step(
    s0: InMemoryState,
    s1: InMemoryState,
    candidates: Seq<Task>,
    updated: Seq<Task>,
    n: int,
    a: Allocation,
)
    requires
        explained(s0, candidates, updated, n),
        0 <= n < candidates.len(),
        s1.executors == s0.executors,
        s1.compute_graph_versions == s0.compute_graph_versions,
        s1.allocations@ == s0.allocations@.push(a),
    ensures
        explained(
            s1,
            candidates,
            updated.push(with_status(candidates[n], TaskStatus::Running)),
            n + 1,
        ),
{
    reveal(explained);
    let u = updated.push(with_status(candidates[n], TaskStatus::Running));
    assert forall|j: int|
        0 <= j < n + 1 && j < candidates.len() implies has_id(u, candidates[j].id@) || left_waiting(
        s1,
        #[trigger] candidates[j],
    ) by {
        if j == n {
            assert(u[updated.len() as int].id@ == candidates[j].id@);
        } else if has_id(updated, candidates[j].id@) {
            let k = choose|k: int| 0 <= k < updated.len() && (#[trigger] updated[k]).id@ == candidates[j].id@;
            assert(u[k] == updated[k]);
        } else if saturated_for(s0.executors@, s0.allocations@, candidates[j]) {
            assert forall|x: int|
                0 <= x < s1.executors@.len() && admits_task(
                    #[trigger] s1.executors@[x],
                    candidates[j],
                ) implies alloc_count(s1.allocations@, s1.executors@[x].id@)
                >= MAX_ALLOCATIONS_PER_EXECUTOR by {
                lemma_alloc_count_push(s0.allocations@, a, s1.executors@[x].id@);
            }
        }
    }
}

proof fn lemma_waiting_index_step(
    after: Seq<String>,
    cur: Seq<String>,
    before: Seq<String>,
    updated: Seq<Task>,
    t: Task,
)
    requires
        waiting_index_kept(cur, before, updated),
        forall|s: Seq<char>|
            #[trigger] views_of(after).contains(s) <==> (views_of(cur).contains(s) && s != t.id@),
    ensures
        waiting_index_kept(after, before, updated.push(t)),
{
    reveal(waiting_index_kept);
    let u = updated.push(t);
    assert forall|s: Seq<char>|
        #[trigger] views_of(after).contains(s) <==> (views_of(before).contains(s) && !has_id(u, s)) by {
        if has_id(updated, s) {
            let k = choose|k: int| 0 <= k < updated.len() && (#[trigger] updated[k]).id@ == s;
            assert(u[k] == updated[k]);
        }
        if has_id(u, s) {
            let k = choose|k: int| 0 <= k < u.len() && (#[trigger] u[k]).id@ == s;
            if k < updated.len() {
                assert(u[k] == updated[k]);
            }
        }
        assert(u[updated.len() as int] == t);
    }
}

proof fn lemma_tasks_recorded_step(
    after: Seq<Task>,
    cur: Seq<Task>,
    before: Seq<Task>,
    updated: Seq<Task>,
    t: Task,
)
    requires
        tasks_recorded(cur, before, updated),
        !has_id(updated, t.id@),
        after.contains(t),
        forall|u: Task| cur.contains(u) && u.id@ != t.id@ ==> #[trigger] after.contains(u),
    ensures
        tasks_recorded(after, before, updated.push(t)),
{
    reveal(tasks_recorded);
    let u = updated.push(t);
    assert forall|k: int| 0 <= k < u.len() implies after.contains(#[trigger] u[k]) by {
        if k < updated.len() {
            assert(u[k] == updated[k]);
            assert(cur.contains(updated[k]));
            if updated[k].id@ == t.id@ {
                assert(has_id(updated, t.id@));
            }
        }
    }
    assert forall|i: int| 0 <= i < before.len() implies has_id(u, before[i].id@) || after.contains(
        #[trigger] before[i],
    ) by {
        if has_id(updated, before[i].id@) {
            let k = choose|k: int| 0 <= k < updated.len() && (#[trigger] updated[k]).id@ == before[i].id@;
            assert(u[k] == updated[k]);
        } else if before[i].id@ == t.id@ {
            assert(u[updated.len() as int] == t);
        } else {
            assert(cur.contains(before[i]));
        }
    }
}

/// Taking a waiting task's id out of the waiting index keeps the index well
/// formed.
proof fn lemma_waiting_removed_keeps_wf(s0: InMemoryState, s1: InMemoryState)
    requires
        s0.wf(),
        s1.executors == s0.executors,
        s1.allocations == s0.allocations,
        s1.tasks == s0.tasks,
        s1.compute_graph_versions == s0.compute_graph_versions,
        forall|s: Seq<char>|
            #[trigger] views_of(s1.unallocated_tasks@).contains(s) ==> views_of(
                s0.unallocated_tasks@,
            ).contains(s),
        forall|i: int, j: int|
            0 <= i < j < s1.unallocated_tasks@.len() ==> #[trigger] s1.unallocated_tasks@[i]@
                != #[trigger] s1.unallocated_tasks@[j]@,
    ensures
        s1.wf(),
{
    assert forall|i: int, j: int|
        0 <= i < s1.allocations@.len() && 0 <= j < s1.unallocated_tasks@.len() implies #[trigger] s1.allocations@[i].task_id@
            != #[trigger] s1.unallocated_tasks@[j]@ by {
        assert(views_of(s1.unallocated_tasks@)[j] == s1.unallocated_tasks@[j]@);
        assert(views_of(s1.unallocated_tasks@).contains(s1.unallocated_tasks@[j]@));
        let j0 = choose|j0: int|
            0 <= j0 < views_of(s0.unallocated_tasks@).len() && views_of(s0.unallocated_tasks@)[j0]
                == s1.unallocated_tasks@[j]@;
        assert(s0.allocations@[i].task_id@ != s0.unallocated_tasks@[j0]@);
    }
}

/// Allocating a task that was waiting, once its id has left the waiting index,
/// keeps the index well formed.
proof fn lemma_allocating_waiting_keeps_wf(
    s0: InMemoryState,
    s1: InMemoryState,
    s2: InMemoryState,
    a: Allocation,
)
    requires
        s0.wf(),
        s1.wf(),
        s1.allocations == s0.allocations,
        views_of(s0.unallocated_tasks@).contains(a.task_id@),
        !views_of(s1.unallocated_tasks@).contains(a.task_id@),
        s2.executors == s1.executors,
        s2.tasks == s1.tasks,
        s2.unallocated_tasks == s1.unallocated_tasks,
        s2.compute_graph_versions == s1.compute_graph_versions,
        s2.allocations@ == s1.allocations@.push(a),
    ensures
        s2.wf(),
{
    let j0 = choose|j0: int|
        0 <= j0 < views_of(s0.unallocated_tasks@).len() && views_of(s0.unallocated_tasks@)[j0]
            == a.task_id@;
    assert forall|i: int, j: int|
        0 <= i < j < s2.allocations@.len() implies #[trigger] s2.allocations@[i].task_id@
            != #[trigger] s2.allocations@[j].task_id@ by {
        if j == s1.allocations@.len() {
            assert(s0.allocations@[i].task_id@ != s0.unallocated_tasks@[j0]@);
        } else {
            assert(s1.allocations@[i] == s2.allocations@[i]);
            assert(s1.allocations@[j] == s2.allocations@[j]);
        }
    }
    assert forall|i: int, j: int|
        0 <= i < s2.allocations@.len() && 0 <= j < s2.unallocated_tasks@.len() implies #[trigger] s2.allocations@[i].task_id@
            != #[trigger] s2.unallocated_tasks@[j]@ by {
        if i == s1.allocations@.len() {
            assert(views_of(s1.unallocated_tasks@)[j] == s1.unallocated_tasks@[j]@);
            assert(views_of(s1.unallocated_tasks@).contains(s1.unallocated_tasks@[j]@));
        } else {
            assert(s1.allocations@[i] == s2.allocations@[i]);
        }
    }
}

} // verus!
