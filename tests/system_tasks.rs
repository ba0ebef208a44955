use indexify_scheduler::system_tasks::{
    admission, completion, next_step, replay_request, Admission, Completion, IterationStep,
    SystemTask, MAX_PENDING_TASKS,
};

fn system_task(running: u64, waiting: bool) -> SystemTask {
    SystemTask {
        namespace: "ns".to_string(),
        compute_graph_name: "graph".to_string(),
        graph_version: 2,
        restart_key: None,
        num_running_invocations: running,
        waiting_for_running_invocations: waiting,
    }
}

#[test]
fn next_step_considers_first_task() {
    assert_eq!(next_step(&vec![]), IterationStep::Idle);
    assert_eq!(
        next_step(&vec![system_task(0, true), system_task(0, false)]),
        IterationStep::HandleCompletion
    );
    assert_eq!(
        next_step(&vec![system_task(0, false), system_task(0, true)]),
        IterationStep::ReadPending
    );
}

#[test]
fn admission_caps_batches() {
    assert_eq!(admission(0), Admission::Queue { limit: 10 });
    assert_eq!(admission(3), Admission::Queue { limit: 7 });
    assert_eq!(admission(9), Admission::Queue { limit: 1 });
    assert_eq!(admission(10), Admission::Throttled);
    assert_eq!(admission(25), Admission::Throttled);
}

#[test]
fn replay_request_carries_current_version() {
    let t = system_task(0, false);
    let (req, all) = replay_request(
        &t,
        vec!["i1".to_string(), "i2".to_string()],
        Some(vec![1, 2]),
    );
    assert_eq!(req.namespace, "ns");
    assert_eq!(req.compute_graph_name, "graph");
    assert_eq!(req.graph_version, 2);
    assert_eq!(req.invocation_ids, vec!["i1".to_string(), "i2".to_string()]);
    assert_eq!(req.restart_key, Some(vec![1, 2]));
    assert!(!all);
    let (req, all) = replay_request(&t, vec![], None);
    assert!(req.invocation_ids.is_empty());
    assert!(all);
}

#[test]
fn completion_decisions() {
    assert!(matches!(completion(&None), Completion::Gone));
    match completion(&Some(system_task(0, false))) {
        Completion::Remove(r) => {
            assert_eq!(r.namespace, "ns");
            assert_eq!(r.compute_graph_name, "graph");
        }
        _ => panic!("expected removal"),
    }
    assert!(matches!(
        completion(&Some(system_task(0, true))),
        Completion::Remove(_)
    ));
    match completion(&Some(system_task(3, false))) {
        Completion::MarkWaiting(u) => {
            assert_eq!(u.namespace, "ns");
            assert_eq!(u.compute_graph_name, "graph");
            assert!(u.waiting_for_running_invocations);
        }
        _ => panic!("expected the waiting mark"),
    }
    assert!(matches!(
        completion(&Some(system_task(3, true))),
        Completion::KeepWaiting
    ));
}

/// A store of invocations, pending replay tasks and one system task, driven
/// by the library's decisions the way the driver loop does.
struct FakeStore {
    invocations: Vec<String>,
    task: Option<SystemTask>,
    pending: Vec<String>,
    replayed: Vec<String>,
    removals: usize,
}

impl FakeStore {
    fn list(&self, start: usize, limit: usize) -> (Vec<String>, Option<Vec<u8>>) {
        let end = (start + limit).min(self.invocations.len());
        let items = self.invocations[start..end].to_vec();
        let key = if end < self.invocations.len() {
            Some((end as u64).to_be_bytes().to_vec())
        } else {
            None
        };
        (items, key)
    }

    fn iterate(&mut self) {
        let tasks: Vec<SystemTask> = self.task.iter().map(copy_task).collect();
        match next_step(&tasks) {
            IterationStep::Idle => {}
            IterationStep::HandleCompletion => self.handle_completion(),
            IterationStep::ReadPending => {
                let pending = self.pending.len();
                assert!(pending <= MAX_PENDING_TASKS);
                if let Admission::Queue { limit } = admission(pending) {
                    let t = &tasks[0];
                    let start = t
                        .restart_key
                        .as_ref()
                        .map(|k| u64::from_be_bytes(k[..8].try_into().unwrap()) as usize)
                        .unwrap_or(0);
                    let (ids, key) = self.list(start, limit);
                    let (req, all_queued) = replay_request(t, ids, key);
                    assert!(pending + req.invocation_ids.len() <= MAX_PENDING_TASKS);
                    assert_eq!(req.graph_version, 2);
                    for id in &req.invocation_ids {
                        self.pending.push(id.clone());
                    }
                    let st = self.task.as_mut().unwrap();
                    st.restart_key = req.restart_key;
                    st.num_running_invocations += req.invocation_ids.len() as u64;
                    if all_queued {
                        self.handle_completion();
                    }
                }
            }
        }
    }

    fn handle_completion(&mut self) {
        let current = self.task.as_ref().map(copy_task);
        match completion(&current) {
            Completion::Remove(_) => {
                self.task = None;
                self.removals += 1;
            }
            Completion::MarkWaiting(_) => {
                self.task.as_mut().unwrap().waiting_for_running_invocations = true;
            }
            Completion::KeepWaiting | Completion::Gone => {}
        }
    }

    fn finalize_all(&mut self) {
        for id in self.pending.drain(..) {
            self.replayed.push(id);
        }
        if let Some(t) = self.task.as_mut() {
            t.num_running_invocations = 0;
        }
    }
}

fn copy_task(t: &SystemTask) -> SystemTask {
    SystemTask {
        namespace: t.namespace.clone(),
        compute_graph_name: t.compute_graph_name.clone(),
        graph_version: t.graph_version,
        restart_key: t.restart_key.clone(),
        num_running_invocations: t.num_running_invocations,
        waiting_for_running_invocations: t.waiting_for_running_invocations,
    }
}

#[test]
fn replay_backpressure() {
    let n = 3 * MAX_PENDING_TASKS;
    let mut store = FakeStore {
        invocations: (0..n).map(|i| format!("inv{}", i)).collect(),
        task: Some(system_task(0, false)),
        pending: vec![],
        replayed: vec![],
        removals: 0,
    };
    let mut steps = 0;
    while store.task.is_some() {
        store.iterate();
        assert!(store.pending.len() <= MAX_PENDING_TASKS);
        if store.task.is_some() {
            assert!(store.replayed.len() < n);
        }
        store.finalize_all();
        steps += 1;
        assert!(steps < 100);
    }
    assert_eq!(store.replayed.len(), n);
    assert_eq!(store.removals, 1);
    store.iterate();
    assert_eq!(store.removals, 1);
}

#[test]
fn replay_throttled_when_pipeline_full() {
    let mut store = FakeStore {
        invocations: (0..5).map(|i| format!("inv{}", i)).collect(),
        task: Some(system_task(0, false)),
        pending: (0..10).map(|i| format!("other{}", i)).collect(),
        replayed: vec![],
        removals: 0,
    };
    store.iterate();
    assert_eq!(store.pending.len(), 10);
    assert!(store.task.is_some());
    assert_eq!(store.task.as_ref().unwrap().restart_key, None);
}

#[test]
fn replay_waits_for_running_invocations() {
    let mut store = FakeStore {
        invocations: (0..3).map(|i| format!("inv{}", i)).collect(),
        task: Some(system_task(0, false)),
        pending: vec![],
        replayed: vec![],
        removals: 0,
    };
    store.iterate();
    assert_eq!(store.pending.len(), 3);
    assert!(store.task.as_ref().unwrap().waiting_for_running_invocations);
    store.iterate();
    assert_eq!(store.removals, 0);
    store.finalize_all();
    store.iterate();
    assert_eq!(store.removals, 1);
    assert!(store.task.is_none());
}
