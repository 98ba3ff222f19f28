use thorust::enums::TestStatus;
use thorust::manifests::scripts::{MScriptFile, Service, TestUnit};
use thorust::manifests::BaseManifest;
use thorust::runner::run_until_complete;
use thorust::workflow::Workflow;

fn unit(id: &str, command: &str, depends_on: &[&str]) -> TestUnit {
    TestUnit {
        name: format!("test {}", id),
        id: id.to_string(),
        depends_on: depends_on.iter().map(|d| d.to_string()).collect(),
        command: command.to_string(),
        description: format!("runs {}", id),
    }
}

fn workflow_of(tests: Vec<TestUnit>) -> Workflow {
    let svc = Service { name: "foo".to_string(), tests };
    let mut manifest = BaseManifest::new(Some(MScriptFile { services: vec![svc] }), None);
    manifest.normalize().unwrap();
    Workflow::new(manifest).unwrap()
}

fn status_of(w: &Workflow, id: &str) -> TestStatus {
    w.graph
        .nodes
        .iter()
        .find(|n| n.id == id)
        .unwrap()
        .last_status()
}

fn assert_histories_well_formed(w: &Workflow) {
    for node in w.graph.nodes.iter() {
        assert!(!node.status.is_empty());
        assert_eq!(node.status[0], TestStatus::NotStarted);
        let mut seen_terminal = false;
        for s in node.status.iter() {
            if seen_terminal {
                assert_ne!(*s, TestStatus::Running);
            }
            if matches!(
                s,
                TestStatus::Completed
                    | TestStatus::Failed
                    | TestStatus::AssertionFailed
                    | TestStatus::Skipped
            ) {
                seen_terminal = true;
            }
        }
    }
}

#[test]
fn linear_chain_completes() {
    let mut w = workflow_of(vec![
        unit("a", "echo hi", &[]),
        unit("b", "echo hi", &["a"]),
        unit("c", "echo hi", &["b"]),
    ]);
    let outcomes = vec![true, true, true];
    let _ = run_until_complete(&mut w, &outcomes);
    assert_eq!(status_of(&w, "foo.a"), TestStatus::Completed);
    assert_eq!(status_of(&w, "foo.b"), TestStatus::Completed);
    assert_eq!(status_of(&w, "foo.c"), TestStatus::Completed);
    // Each executed node went NotStarted -> Running -> Completed.
    for node in w.graph.nodes.iter() {
        assert_eq!(
            node.status,
            vec![TestStatus::NotStarted, TestStatus::Running, TestStatus::Completed]
        );
    }
    assert!(w.availables().is_empty());
    assert_histories_well_formed(&w);
}

#[test]
fn mid_chain_failure_propagates() {
    let mut w = workflow_of(vec![
        unit("a", "echo hi", &[]),
        unit("b", "echo hi", &["a"]),
        unit("c", "exit 1", &["b"]),
        unit("d", "echo hi", &["c"]),
    ]);
    let outcomes = vec![true, true, false, true];
    let _ = run_until_complete(&mut w, &outcomes);
    assert_eq!(status_of(&w, "foo.a"), TestStatus::Completed);
    assert_eq!(status_of(&w, "foo.b"), TestStatus::Completed);
    assert_eq!(status_of(&w, "foo.c"), TestStatus::Failed);
    assert_eq!(status_of(&w, "foo.d"), TestStatus::Skipped);
    // The skipped node never ran.
    let d = w.graph.nodes.iter().find(|n| n.id == "foo.d").unwrap();
    assert_eq!(d.status, vec![TestStatus::NotStarted, TestStatus::Skipped]);
    assert!(w.availables().is_empty());
    assert_histories_well_formed(&w);
}

#[test]
fn failure_does_not_cross_components() {
    let mut w = workflow_of(vec![
        unit("a", "exit 1", &[]),
        unit("b", "echo hi", &["a"]),
        unit("c", "echo hi", &["a"]),
        unit("x", "echo hi", &[]),
        unit("y", "echo hi", &["x"]),
    ]);
    let outcomes = vec![false, true, true, true, true];
    let _ = run_until_complete(&mut w, &outcomes);
    assert_eq!(status_of(&w, "foo.a"), TestStatus::Failed);
    assert_eq!(status_of(&w, "foo.b"), TestStatus::Skipped);
    assert_eq!(status_of(&w, "foo.c"), TestStatus::Skipped);
    assert_eq!(status_of(&w, "foo.x"), TestStatus::Completed);
    assert_eq!(status_of(&w, "foo.y"), TestStatus::Completed);
    assert!(w.availables().is_empty());
    assert_histories_well_formed(&w);
}

#[test]
fn diamond_runs_join_after_both_branches() {
    let mut w = workflow_of(vec![
        unit("a", "echo hi", &[]),
        unit("b", "echo hi", &["a"]),
        unit("c", "echo hi", &["a"]),
        unit("d", "echo hi", &["b", "c"]),
    ]);
    let outcomes = vec![true, true, true, true];
    let events = run_until_complete(&mut w, &outcomes);
    for id in ["foo.a", "foo.b", "foo.c", "foo.d"] {
        assert_eq!(status_of(&w, id), TestStatus::Completed);
    }
    // The join node ran exactly once: one Running entry in its history,
    // and its Running event comes after both branches completed.
    let d = w.graph.nodes.iter().find(|n| n.id == "foo.d").unwrap();
    let runs = d.status.iter().filter(|s| **s == TestStatus::Running).count();
    assert_eq!(runs, 1);
    let pos = |id: &str, status: TestStatus| {
        events
            .iter()
            .position(|e| e.node.id == id && e.node.last_status() == status)
            .unwrap()
    };
    assert!(pos("foo.d", TestStatus::Running) > pos("foo.b", TestStatus::Completed));
    assert!(pos("foo.d", TestStatus::Running) > pos("foo.c", TestStatus::Completed));
    assert_histories_well_formed(&w);
}

#[test]
fn events_carry_dot_snapshots() {
    let mut w = workflow_of(vec![unit("a", "echo hi", &[])]);
    let outcomes = vec![true];
    let events = run_until_complete(&mut w, &outcomes);
    assert_eq!(events.len(), 2);
    assert!(events[0].dot.contains("foo.a-Running"));
    assert!(events[1].dot.contains("foo.a-Completed"));
    assert_eq!(events[1].dot, w.as_dot());
}
