use indexify_scheduler::model::{
    Allocation, ChangeType, ComputeGraphVersion, ExecutorMetadata, ExecutorTombstone, FunctionURI,
    InMemoryState, Node, SchedulerError, Task, TaskOutcome, TaskStatus,
    MAX_ALLOCATIONS_PER_EXECUTOR,
};
use indexify_scheduler::task_allocator::{func_matches, TaskAllocationProcessor};

const NS: &str = "test_ns";
const GRAPH: &str = "graph_a";

fn task(id: &str, func: &str) -> Task {
    Task {
        id: id.to_string(),
        namespace: NS.to_string(),
        compute_graph_name: GRAPH.to_string(),
        compute_fn_name: func.to_string(),
        invocation_id: format!("inv_{}", id),
        graph_version: 1,
        status: TaskStatus::Pending,
        outcome: TaskOutcome::Unknown,
    }
}

fn executor(id: &str, allowlist: Option<Vec<FunctionURI>>) -> ExecutorMetadata {
    ExecutorMetadata {
        id: id.to_string(),
        function_allowlist: allowlist,
    }
}

fn uri(func: &str, version: Option<u64>) -> FunctionURI {
    FunctionURI {
        namespace: NS.to_string(),
        compute_graph_name: GRAPH.to_string(),
        compute_fn_name: func.to_string(),
        version,
    }
}

fn graph(version: u64, nodes: &[&str]) -> ComputeGraphVersion {
    ComputeGraphVersion {
        namespace: NS.to_string(),
        compute_graph_name: GRAPH.to_string(),
        version,
        nodes: nodes
            .iter()
            .map(|n| Node {
                name: n.to_string(),
            })
            .collect(),
    }
}

fn allocation(t: &Task, executor_id: &str) -> Allocation {
    Allocation {
        namespace: t.namespace.clone(),
        compute_graph: t.compute_graph_name.clone(),
        compute_fn: t.compute_fn_name.clone(),
        invocation_id: t.invocation_id.clone(),
        task_id: t.id.clone(),
        executor_id: executor_id.to_string(),
    }
}

/// A state with the given pending tasks waiting, and graph version 1 with
/// nodes `f` and `g`.
fn state_with_pending(tasks: Vec<Task>, executors: Vec<ExecutorMetadata>) -> InMemoryState {
    let mut s = InMemoryState::new();
    for t in tasks {
        s.unallocated_tasks.push(t.id.clone());
        s.tasks.push(t);
    }
    s.executors = executors;
    s.compute_graph_versions.push(graph(1, &["f", "g"]));
    s
}

/// Adds `n` running tasks allocated to the executor.
fn add_running(s: &mut InMemoryState, executor_id: &str, n: usize) {
    for i in 0..n {
        let mut t = task(&format!("{}_running_{}", executor_id, i), "f");
        t.status = TaskStatus::Running;
        s.allocations.push(allocation(&t, executor_id));
        s.tasks.push(t);
    }
}

fn count_on(s: &InMemoryState, executor_id: &str) -> usize {
    s.allocations
        .iter()
        .filter(|a| a.executor_id == executor_id)
        .count()
}

#[test]
fn no_executors_one_task() {
    let mut s = state_with_pending(vec![task("t1", "f")], vec![]);
    let p = TaskAllocationProcessor::new();
    let u = p
        .invoke(&ChangeType::ExecutorRemoved("x".to_string()), &mut s)
        .unwrap();
    assert!(u.new_allocations.is_empty());
    assert!(u.remove_allocations.is_empty());
    assert!(u.updated_tasks.is_empty());
    assert!(u.remove_executors.is_empty());
    assert_eq!(s.unallocated_tasks, vec!["t1".to_string()]);
}

#[test]
fn single_free_executor() {
    let mut s = state_with_pending(vec![task("t1", "f")], vec![executor("e1", None)]);
    let p = TaskAllocationProcessor::new();
    let u = p
        .invoke(&ChangeType::ExecutorAdded("e1".to_string()), &mut s)
        .unwrap();
    assert_eq!(u.new_allocations.len(), 1);
    assert_eq!(u.new_allocations[0].executor_id, "e1");
    assert_eq!(u.new_allocations[0].task_id, "t1");
    assert_eq!(u.new_allocations[0].invocation_id, "inv_t1");
    assert_eq!(u.updated_tasks.len(), 1);
    assert_eq!(u.updated_tasks[0].id, "t1");
    assert_eq!(u.updated_tasks[0].status, TaskStatus::Running);
    assert!(u.remove_allocations.is_empty());
    assert!(u.remove_executors.is_empty());
    assert!(s.unallocated_tasks.is_empty());
    assert_eq!(s.allocations.len(), 1);
    assert_eq!(s.tasks.len(), 1);
    assert_eq!(s.tasks[0].status, TaskStatus::Running);
}

#[test]
fn capacity_saturation() {
    let pending: Vec<Task> = (0..5).map(|i| task(&format!("p{}", i), "f")).collect();
    let mut s = state_with_pending(pending, vec![executor("e1", None)]);
    add_running(&mut s, "e1", MAX_ALLOCATIONS_PER_EXECUTOR);
    let before = s.unallocated_tasks.clone();
    let p = TaskAllocationProcessor::new();
    let u = p
        .invoke(&ChangeType::ExecutorAdded("e1".to_string()), &mut s)
        .unwrap();
    assert!(u.new_allocations.is_empty());
    assert!(u.updated_tasks.is_empty());
    assert_eq!(s.unallocated_tasks, before);
    assert_eq!(count_on(&s, "e1"), 20);
}

#[test]
fn capacity_fills_up_to_the_limit() {
    let pending: Vec<Task> = (0..3).map(|i| task(&format!("p{}", i), "f")).collect();
    let mut s = state_with_pending(pending, vec![executor("e1", None)]);
    add_running(&mut s, "e1", MAX_ALLOCATIONS_PER_EXECUTOR - 1);
    let p = TaskAllocationProcessor::new();
    let u = p
        .invoke(&ChangeType::ExecutorAdded("e1".to_string()), &mut s)
        .unwrap();
    assert_eq!(u.new_allocations.len(), 1);
    assert_eq!(u.new_allocations[0].task_id, "p0");
    assert_eq!(count_on(&s, "e1"), 20);
    assert_eq!(s.unallocated_tasks, vec!["p1".to_string(), "p2".to_string()]);
}

#[test]
fn allowlist_filter_admits_both() {
    let mut seen_a = 0;
    let mut seen_b = 0;
    for _ in 0..1000 {
        let mut s = state_with_pending(
            vec![task("t1", "f")],
            vec![
                executor("A", Some(vec![uri("f", Some(1))])),
                executor("B", None),
            ],
        );
        let p = TaskAllocationProcessor::new();
        let u = p
            .invoke(&ChangeType::ExecutorAdded("A".to_string()), &mut s)
            .unwrap();
        assert_eq!(u.new_allocations.len(), 1);
        match u.new_allocations[0].executor_id.as_str() {
            "A" => seen_a += 1,
            "B" => seen_b += 1,
            other => panic!("unexpected executor {}", other),
        }
    }
    assert!(seen_a > 0);
    assert!(seen_b > 0);
}

#[test]
fn allowlist_excludes_other_functions() {
    for _ in 0..100 {
        let mut s = state_with_pending(
            vec![task("t1", "f")],
            vec![executor("A", Some(vec![uri("g", None)])), executor("B", None)],
        );
        let p = TaskAllocationProcessor::new();
        let u = p
            .invoke(&ChangeType::ExecutorAdded("A".to_string()), &mut s)
            .unwrap();
        assert_eq!(u.new_allocations.len(), 1);
        assert_eq!(u.new_allocations[0].executor_id, "B");
    }
}

#[test]
fn allowlist_with_other_version_leaves_task_waiting() {
    let mut s = state_with_pending(
        vec![task("t1", "f")],
        vec![executor("A", Some(vec![uri("f", Some(2))]))],
    );
    let p = TaskAllocationProcessor::new();
    let u = p
        .invoke(&ChangeType::ExecutorAdded("A".to_string()), &mut s)
        .unwrap();
    assert!(u.new_allocations.is_empty());
    assert_eq!(s.unallocated_tasks, vec!["t1".to_string()]);
}

#[test]
fn allowlist_without_version_matches_current() {
    let mut s = state_with_pending(
        vec![task("t1", "f")],
        vec![executor("A", Some(vec![uri("g", Some(1)), uri("f", None)]))],
    );
    let p = TaskAllocationProcessor::new();
    let u = p
        .invoke(&ChangeType::ExecutorAdded("A".to_string()), &mut s)
        .unwrap();
    assert_eq!(u.new_allocations.len(), 1);
    assert_eq!(u.new_allocations[0].executor_id, "A");
}

#[test]
fn tombstone_reclamation() {
    let mut s = state_with_pending(vec![], vec![executor("E", None), executor("F", None)]);
    add_running(&mut s, "E", 3);
    add_running(&mut s, "F", 1);
    let before_tasks = s.tasks.len();
    let p = TaskAllocationProcessor::new();
    let u = p
        .invoke(
            &ChangeType::TombStoneExecutor(ExecutorTombstone {
                executor_id: "E".to_string(),
            }),
            &mut s,
        )
        .unwrap();
    assert_eq!(u.remove_allocations.len(), 3);
    assert!(u.remove_allocations.iter().all(|a| a.executor_id == "E"));
    assert_eq!(u.updated_tasks.len(), 3);
    assert!(u.updated_tasks.iter().all(|t| t.status == TaskStatus::Pending));
    let ids: Vec<&str> = u.updated_tasks.iter().map(|t| t.id.as_str()).collect();
    assert_eq!(ids, vec!["E_running_0", "E_running_1", "E_running_2"]);
    assert_eq!(u.remove_executors, vec!["E".to_string()]);
    assert!(u.new_allocations.is_empty());
    // the index itself is left to the caller
    assert_eq!(s.allocations.len(), 4);
    assert_eq!(s.tasks.len(), before_tasks);
}

#[test]
fn tombstone_skips_allocation_of_unknown_task() {
    let mut s = state_with_pending(vec![], vec![executor("E", None)]);
    add_running(&mut s, "E", 2);
    s.tasks.remove(0);
    let p = TaskAllocationProcessor::new();
    let u = p
        .invoke(
            &ChangeType::TombStoneExecutor(ExecutorTombstone {
                executor_id: "E".to_string(),
            }),
            &mut s,
        )
        .unwrap();
    assert_eq!(u.remove_allocations.len(), 2);
    assert_eq!(u.updated_tasks.len(), 1);
    assert_eq!(u.updated_tasks[0].id, "E_running_1");
}

#[test]
fn unhandled_change_type() {
    let mut s = state_with_pending(vec![task("t1", "f")], vec![executor("e1", None)]);
    let p = TaskAllocationProcessor::new();
    let r = p.invoke(&ChangeType::InvokeComputeGraph("inv".to_string()), &mut s);
    assert!(matches!(r, Err(SchedulerError::UnhandledChangeType)));
    let r = p.invoke(&ChangeType::TaskFinished("t1".to_string()), &mut s);
    assert!(matches!(r, Err(SchedulerError::UnhandledChangeType)));
    assert_eq!(s.unallocated_tasks, vec!["t1".to_string()]);
    assert!(s.allocations.is_empty());
}

#[test]
fn missing_graph_and_node_are_skipped() {
    let mut no_graph = task("t_nograph", "f");
    no_graph.graph_version = 7;
    let no_node = task("t_nonode", "h");
    let ok = task("t_ok", "g");
    let mut s = state_with_pending(vec![no_graph, no_node, ok], vec![executor("e1", None)]);
    let p = TaskAllocationProcessor::new();
    let u = p
        .invoke(&ChangeType::ExecutorAdded("e1".to_string()), &mut s)
        .unwrap();
    assert_eq!(u.new_allocations.len(), 1);
    assert_eq!(u.new_allocations[0].task_id, "t_ok");
    assert_eq!(
        s.unallocated_tasks,
        vec!["t_nograph".to_string(), "t_nonode".to_string()]
    );
}

#[test]
fn terminal_tasks_are_skipped() {
    let mut done = task("t_done", "f");
    done.outcome = TaskOutcome::Success;
    let mut s = state_with_pending(vec![done, task("t2", "f")], vec![executor("e1", None)]);
    let p = TaskAllocationProcessor::new();
    let u = p
        .invoke(&ChangeType::ExecutorAdded("e1".to_string()), &mut s)
        .unwrap();
    assert_eq!(u.new_allocations.len(), 1);
    assert_eq!(u.new_allocations[0].task_id, "t2");
    assert_eq!(s.unallocated_tasks, vec!["t_done".to_string()]);
}

#[test]
fn waiting_id_without_task_is_passed_over() {
    let mut s = state_with_pending(vec![task("t1", "f")], vec![executor("e1", None)]);
    s.unallocated_tasks.insert(0, "ghost".to_string());
    let p = TaskAllocationProcessor::new();
    let u = p
        .invoke(&ChangeType::ExecutorAdded("e1".to_string()), &mut s)
        .unwrap();
    assert_eq!(u.new_allocations.len(), 1);
    assert_eq!(u.new_allocations[0].task_id, "t1");
    assert_eq!(s.unallocated_tasks, vec!["ghost".to_string()]);
}

#[test]
fn many_tasks_spread_within_capacity() {
    let pending: Vec<Task> = (0..50).map(|i| task(&format!("p{}", i), "f")).collect();
    let mut s = state_with_pending(pending, vec![executor("e1", None), executor("e2", None)]);
    let p = TaskAllocationProcessor::new();
    let u = p
        .invoke(&ChangeType::ExecutorAdded("e1".to_string()), &mut s)
        .unwrap();
    assert_eq!(u.new_allocations.len(), 40);
    assert_eq!(count_on(&s, "e1"), 20);
    assert_eq!(count_on(&s, "e2"), 20);
    assert_eq!(s.unallocated_tasks.len(), 10);
    let mut ids: Vec<&str> = s.allocations.iter().map(|a| a.task_id.as_str()).collect();
    ids.sort();
    ids.dedup();
    assert_eq!(ids.len(), 40);
}

#[test]
fn schedule_tasks_with_no_executors_is_empty() {
    let mut s = state_with_pending(vec![task("t1", "f")], vec![]);
    let tasks = vec![s.tasks[0].duplicate()];
    let p = TaskAllocationProcessor::new();
    let r = p.schedule_tasks(tasks, &mut s).unwrap();
    assert!(r.new_allocations.is_empty());
    assert!(r.updated_tasks.is_empty());
    assert!(r.remove_allocations.is_empty());
}

#[test]
fn allocate_binds_every_waiting_task() {
    let mut s = state_with_pending(
        vec![task("t1", "f"), task("t2", "g")],
        vec![executor("e1", None)],
    );
    let p = TaskAllocationProcessor::new();
    let r = p.allocate(&mut s).unwrap();
    assert_eq!(r.new_allocations.len(), 2);
    assert_eq!(r.updated_tasks[0].id, "t1");
    assert_eq!(r.updated_tasks[1].id, "t2");
    assert!(s.unallocated_tasks.is_empty());
}

#[test]
fn func_matches_rule() {
    let g = graph(3, &["f"]);
    let node = Node {
        name: "f".to_string(),
    };
    assert!(func_matches(&uri("f", None), &g, &node));
    assert!(func_matches(&uri("f", Some(3)), &g, &node));
    assert!(!func_matches(&uri("f", Some(2)), &g, &node));
    assert!(!func_matches(&uri("g", None), &g, &node));
    let mut other_ns = uri("f", None);
    other_ns.namespace = "other".to_string();
    assert!(!func_matches(&other_ns, &g, &node));
    let mut other_graph = uri("f", None);
    other_graph.compute_graph_name = "other".to_string();
    assert!(!func_matches(&other_graph, &g, &node));
}

#[test]
fn outcome_is_terminal() {
    assert!(!TaskOutcome::Unknown.is_terminal());
    assert!(TaskOutcome::Success.is_terminal());
    assert!(TaskOutcome::Failure.is_terminal());
}

#[test]
fn count_and_find_in_index() {
    let mut s = state_with_pending(vec![task("t1", "f")], vec![executor("e1", None)]);
    add_running(&mut s, "e1", 4);
    assert_eq!(s.count_allocations(&"e1".to_string()), 4);
    assert_eq!(s.count_allocations(&"e2".to_string()), 0);
    assert_eq!(s.find_task(&"t1".to_string()), Some(0));
    assert_eq!(s.find_task(&"nope".to_string()), None);
}
