use crate::model::{
    alloc_count, allocs_on, bound_to_admitting, reclaimed, task_with_id, uri_matches, with_status,
    Allocation, InMemoryState, Task, TaskStatus, MAX_ALLOCATIONS_PER_EXECUTOR, pass_result,
    within_capacity, allocation_for, admits_task,
};
use crate::system_tasks::{admission_of, Admission, MAX_PENDING_TASKS};
use vstd::prelude::*;

verus! {

/// Capacity: if no executor held more allocations than allowed before an
/// allocation pass, none does after it.
pub proof fn lemma_capacity_kept(
    before: InMemoryState,
    after: InMemoryState,
    candidates: Seq<Task>,
    allocs: Seq<Allocation>,
    updated: Seq<Task>,
    e: Seq<char>,
)
    requires
        pass_result(before, after, candidates, allocs, updated),
        forall|x: Seq<char>| #[trigger] alloc_count(before.allocations@, x) <= MAX_ALLOCATIONS_PER_EXECUTOR,
    ensures
        alloc_count(after.allocations@, e) <= MAX_ALLOCATIONS_PER_EXECUTOR,
{
    reveal(within_capacity);
    assert(alloc_count(before.allocations@, e) <= MAX_ALLOCATIONS_PER_EXECUTOR);
}

/// Exclusivity: after an allocation pass, no two allocations hold one task,
/// and no waiting task is allocated.
pub proof fn lemma_exclusive_after_pass(
    before: InMemoryState,
    after: InMemoryState,
    candidates: Seq<Task>,
    allocs: Seq<Allocation>,
    updated: Seq<Task>,
)
    requires
        pass_result(before, after, candidates, allocs, updated),
    ensures
        forall|i: int, j: int|
            0 <= i < j < after.allocations@.len() ==> #[trigger] after.allocations@[i].task_id@
                != #[trigger] after.allocations@[j].task_id@,
        forall|i: int, j: int|
            0 <= i < after.allocations@.len() && 0 <= j < after.unallocated_tasks@.len()
                ==> #[trigger] after.allocations@[i].task_id@
                != #[trigger] after.unallocated_tasks@[j]@,
{
}

/// Allowlist respect: each allocation of a pass binds its task to an executor
/// that has no allowlist, or whose allowlist has an entry matching the task's
/// function, graph, namespace and version.
pub proof fn lemma_allowlist_respected(
    before: InMemoryState,
    after: InMemoryState,
    candidates: Seq<Task>,
    allocs: Seq<Allocation>,
    updated: Seq<Task>,
    k: int,
)
    requires
        pass_result(before, after, candidates, allocs, updated),
        0 <= k < allocs.len(),
    ensures
        allocs[k].task_id@ == updated[k].id@,
        exists|x: int|
            0 <= x < before.executors@.len() && (#[trigger] before.executors@[x]).id@
                == allocs[k].executor_id@ && match before.executors@[x].function_allowlist {
                None => true,
                Some(l) => exists|i: int|
                    0 <= i < l@.len() && uri_matches(
                        #[trigger] l@[i],
                        updated[k].namespace@,
                        updated[k].compute_graph_name@,
                        updated[k].compute_fn_name@,
                        updated[k].graph_version,
                    ),
            },
{
    reveal(bound_to_admitting);
    assert(allocation_for(allocs[k], updated[k]));
    let x = choose|x: int|
        0 <= x < before.executors@.len() && before.executors@[x].id@ == allocs[k].executor_id@
            && admits_task(before.executors@[x], updated[k]);
    assert(before.executors@[x].id@ == allocs[k].executor_id@);
}

/// Reclamation: the allocations given back for a tombstoned executor are all
/// of its allocations and only those, so none of its allocations remains once
/// they are removed; each task given back is Pending, belongs to one of them,
/// and each of them whose task is indexed gives that task back.
pub proof fn lemma_tombstone_reclaims(allocs: Seq<Allocation>, tasks: Seq<Task>, e: Seq<char>)
    ensures
        forall|i: int|
            0 <= i < allocs.len() && (#[trigger] allocs[i]).executor_id@ == e ==> allocs_on(
                allocs,
                e,
            ).contains(allocs[i]),
        forall|a: Allocation|
            #[trigger] allocs_on(allocs, e).contains(a) ==> a.executor_id@ == e && allocs.contains(
                a,
            ),
        forall|k: int|
            0 <= k < reclaimed(allocs_on(allocs, e), tasks).len() ==> (#[trigger] reclaimed(
                allocs_on(allocs, e),
                tasks,
            )[k]).status == TaskStatus::Pending && exists|a: Allocation|
                allocs_on(allocs, e).contains(a) && task_with_id(tasks, a.task_id@) is Some
                    && reclaimed(allocs_on(allocs, e), tasks)[k] == with_status(
                    task_with_id(tasks, a.task_id@)->Some_0,
                    TaskStatus::Pending,
                ),
        forall|a: Allocation|
            #[trigger] allocs_on(allocs, e).contains(a) && task_with_id(tasks, a.task_id@) is Some
                ==> reclaimed(allocs_on(allocs, e), tasks).contains(
                with_status(task_with_id(tasks, a.task_id@)->Some_0, TaskStatus::Pending),
            ),
{
    lemma_allocs_on(allocs, e);
    lemma_reclaimed(allocs_on(allocs, e), tasks);
}

proof fn lemma_allocs_on(allocs: Seq<Allocation>, e: Seq<char>)
    ensures
        forall|i: int|
            0 <= i < allocs.len() && (#[trigger] allocs[i]).executor_id@ == e ==> allocs_on(
                allocs,
                e,
            ).contains(allocs[i]),
        forall|a: Allocation|
            #[trigger] allocs_on(allocs, e).contains(a) ==> a.executor_id@ == e && allocs.contains(
                a,
            ),
    decreases allocs.len(),
{
    if allocs.len() > 0 {
        let p = allocs.drop_last();
        lemma_allocs_on(p, e);
        let r = allocs_on(allocs, e);
        let rp = allocs_on(p, e);
        assert forall|i: int|
            0 <= i < allocs.len() && (#[trigger] allocs[i]).executor_id@ == e implies r.contains(
            allocs[i],
        ) by {
            if i < p.len() {
                assert(p[i] == allocs[i]);
                let m = choose|m: int| 0 <= m < rp.len() && rp[m] == p[i];
                assert(r[m] == rp[m]);
            } else {
                assert(r[r.len() - 1] == allocs.last());
            }
        }
        assert forall|a: Allocation| #[trigger] r.contains(a) implies a.executor_id@ == e
            && allocs.contains(a) by {
            let m = choose|m: int| 0 <= m < r.len() && r[m] == a;
            if m < rp.len() {
                assert(rp[m] == a);
                assert(rp.contains(a));
                let n = choose|n: int| 0 <= n < p.len() && p[n] == a;
                assert(allocs[n] == a);
            } else {
                assert(allocs[allocs.len() - 1] == a);
            }
        }
    }
}

proof fn lemma_reclaimed(allocs: Seq<Allocation>, tasks: Seq<Task>)
    ensures
        forall|k: int|
            0 <= k < reclaimed(allocs, tasks).len() ==> (#[trigger] reclaimed(allocs, tasks)[k]).status
                == TaskStatus::Pending && exists|a: Allocation|
                allocs.contains(a) && task_with_id(tasks, a.task_id@) is Some && reclaimed(
                    allocs,
                    tasks,
                )[k] == with_status(task_with_id(tasks, a.task_id@)->Some_0, TaskStatus::Pending),
        forall|a: Allocation|
            #[trigger] allocs.contains(a) && task_with_id(tasks, a.task_id@) is Some
                ==> reclaimed(allocs, tasks).contains(
                with_status(task_with_id(tasks, a.task_id@)->Some_0, TaskStatus::Pending),
            ),
    decreases allocs.len(),
{
    if allocs.len() > 0 {
        let p = allocs.drop_last();
        lemma_reclaimed(p, tasks);
        let r = reclaimed(allocs, tasks);
        let rp = reclaimed(p, tasks);
        let last = allocs.last();
        assert(allocs[allocs.len() - 1] == last);
        assert forall|k: int| 0 <= k < r.len() implies (#[trigger] r[k]).status
            == TaskStatus::Pending && exists|a: Allocation|
            allocs.contains(a) && task_with_id(tasks, a.task_id@) is Some && r[k] == with_status(
                task_with_id(tasks, a.task_id@)->Some_0,
                TaskStatus::Pending,
            ) by {
            if k < rp.len() {
                assert(r[k] == rp[k]);
                let a = choose|a: Allocation|
                    p.contains(a) && task_with_id(tasks, a.task_id@) is Some && rp[k] == with_status(
                        task_with_id(tasks, a.task_id@)->Some_0,
                        TaskStatus::Pending,
                    );
                let n = choose|n: int| 0 <= n < p.len() && p[n] == a;
                assert(allocs[n] == a);
                assert(allocs.contains(a));
            } else {
                assert(allocs.contains(last));
            }
        }
        assert forall|a: Allocation|
            #[trigger] allocs.contains(a) && task_with_id(tasks, a.task_id@) is Some implies r.contains(
            with_status(task_with_id(tasks, a.task_id@)->Some_0, TaskStatus::Pending),
        ) by {
            let t = task_with_id(tasks, a.task_id@)->Some_0;
            let n = choose|n: int| 0 <= n < allocs.len() && allocs[n] == a;
            if n < p.len() {
                assert(p[n] == a);
                assert(p.contains(a));
                let m = choose|m: int| 0 <= m < rp.len() && rp[m] == with_status(t, TaskStatus::Pending);
                assert(r[m] == rp[m]);
            } else {
                assert(r[r.len() - 1] == with_status(t, TaskStatus::Pending));
            }
        }
    }
}

/// Backpressure: the replay tasks pending at the start of an iteration and the
/// invocations it may queue never exceed the ceiling.
pub proof fn lemma_backpressure(pending_tasks: nat, queued: nat)
    requires
        admission_of(pending_tasks) matches Admission::Queue { limit } && queued <= limit,
    ensures
        pending_tasks + queued <= MAX_PENDING_TASKS,
{
}

/// Where a replay stands: invocations not yet queued, whether it waits for its
/// running invocations, and whether it has been removed.
pub struct ReplayProgress {
    pub remaining: nat,
    pub waiting: bool,
    pub removed: bool,
}

/// Completion handling on the model: removed when nothing runs, else waiting.
pub open spec fn complete_replay(p: ReplayProgress, running: nat) -> (ReplayProgress, bool) {
    if running == 0 {
        (ReplayProgress { removed: true, ..p }, true)
    } else {
        (ReplayProgress { waiting: true, ..p }, false)
    }
}

/// One driver iteration on the model, given the pending replay tasks and the
/// running invocations it observes; the flag says whether it removed the task.
/// The listing hands out at most `limit` invocations and ends the cursor
/// exactly when none remain.
pub open spec fn replay_iteration(p: ReplayProgress, pending_tasks: nat, running: nat) -> (
    ReplayProgress,
    bool,
) {
    if p.removed {
        (p, false)
    } else if p.waiting {
        complete_replay(p, running)
    } else {
        match admission_of(pending_tasks) {
            Admission::Throttled => (p, false),
            Admission::Queue { limit } => {
                let queued = if p.remaining <= limit {
                    p.remaining
                } else {
                    limit as nat
                };
                let rest = ReplayProgress { remaining: (p.remaining - queued) as nat, ..p };
                if rest.remaining == 0 {
                    complete_replay(rest, running)
                } else {
                    (rest, false)
                }
            },
        }
    }
}

/// `k` iterations, each after every queued invocation has finished (nothing
/// pending, nothing running); the count of removals made.
pub open spec fn drained_run(p: ReplayProgress, k: nat) -> (ReplayProgress, nat)
    decreases k,
{
    if k == 0 {
        (p, 0)
    } else {
        let (q, removed) = replay_iteration(p, 0, 0);
        let (f, n) = drained_run(q, (k - 1) as nat);
        (f, n + if removed {
            1nat
        } else {
            0nat
        })
    }
}

/// A removal happens only once nothing runs and nothing is left to queue.
pub proof fn lemma_removal_needs_completion(p: ReplayProgress, pending_tasks: nat, running: nat)
    requires
        replay_iteration(p, pending_tasks, running).1,
    ensures
        running == 0,
        !p.removed,
        replay_iteration(p, pending_tasks, running).0.removed,
        replay_iteration(p, pending_tasks, running).0.remaining == 0 || p.waiting,
{
}

/// Termination: with `n` invocations to replay and every queued invocation
/// finishing before the next iteration, the replay is removed within
/// `n / MAX_PENDING_TASKS + 1` iterations, and removed exactly once however
/// many iterations follow.
pub proof fn lemma_replay_terminates(n: nat, k: nat)
    requires
        k >= n / (MAX_PENDING_TASKS as nat) + 1,
    ensures
        drained_run(ReplayProgress { remaining: n, waiting: false, removed: false }, k).0.removed,
        drained_run(ReplayProgress { remaining: n, waiting: false, removed: false }, k).1 == 1,
    decreases n,
{
    let p = ReplayProgress { remaining: n, waiting: false, removed: false };
    let (q, removed) = replay_iteration(p, 0, 0);
    if n <= MAX_PENDING_TASKS {
        assert(removed);
        assert(q.removed);
        lemma_removed_stays(q, (k - 1) as nat);
    } else {
        assert(!removed);
        assert(q == ReplayProgress { remaining: (n - MAX_PENDING_TASKS) as nat, waiting: false, removed: false });
        assert((n - 10) as nat / 10 + 1 == n / 10) by (nonlinear_arith)
            requires n > 10;
        lemma_replay_terminates((n - MAX_PENDING_TASKS) as nat, (k - 1) as nat);
    }
}

/// A removed replay stays removed and is never removed again.
pub proof fn lemma_removed_stays(p: ReplayProgress, k: nat)
    requires
        p.removed,
    ensures
        drained_run(p, k).0.removed,
        drained_run(p, k).1 == 0,
    decreases k,
{
    if k > 0 {
        lemma_removed_stays(p, (k - 1) as nat);
    }
}

/// Iterations that observe, in turn, the given pending replay tasks and
/// running invocations; the count of removals made.
pub open spec fn observed_run(p: ReplayProgress, observed: Seq<(nat, nat)>) -> (ReplayProgress, nat)
    decreases observed.len(),
{
    if observed.len() == 0 {
        (p, 0)
    } else {
        let (q, removed) = replay_iteration(p, observed[0].0, observed[0].1);
        let (f, n) = observed_run(q, observed.drop_first());
        (f, n + if removed {
            1nat
        } else {
            0nat
        })
    }
}

/// Whatever the iterations observe, a replay is removed at most once, and a
/// removed replay never again.
pub proof fn lemma_removed_at_most_once(p: ReplayProgress, observed: Seq<(nat, nat)>)
    ensures
        observed_run(p, observed).1 <= 1,
        p.removed ==> observed_run(p, observed).1 == 0 && observed_run(p, observed).0.removed,
        observed_run(p, observed).1 == 1 ==> observed_run(p, observed).0.removed,
    decreases observed.len(),
{
    if observed.len() > 0 {
        let (q, removed) = replay_iteration(p, observed[0].0, observed[0].1);
        lemma_removed_at_most_once(q, observed.drop_first());
        if removed {
            assert(q.removed);
        }
    }
}

} // verus!
