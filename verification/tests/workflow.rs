use thorust::enums::TestStatus;
use thorust::graph::{FilterOptions, TestExecutable, TestNode};
use thorust::manifests::scripts::{MScriptFile, Service, TestUnit};
use thorust::manifests::BaseManifest;
use thorust::workflow::Workflow;

fn unit(id: &str, command: &str, depends_on: &[&str]) -> TestUnit {
    TestUnit {
        name: format!("test {}", id),
        id: id.to_string(),
        depends_on: depends_on.iter().map(|d| d.to_string()).collect(),
        command: command.to_string(),
        description: format!("runs {}", id),
    }
}

/// The example manifest: services `foo` (seven chained tests) and `bar`
/// (one test depending on `foo.test7`, one independent).
fn example_manifest() -> BaseManifest {
    let foo = Service {
        name: "foo".to_string(),
        tests: vec![
            unit("test1", "echo hi", &[]),
            unit("test2", "echo hi", &[]),
            unit("test3", "echo hi", &[]),
            unit("test4", "echo hi", &["test2", "test3"]),
            unit("test5", "echo hi", &["test1", "test3"]),
            unit("test6", "echo hi", &["test4", "test5"]),
            unit("test7", "echo hi", &["test4", "test5"]),
        ],
    };
    let bar = Service {
        name: "bar".to_string(),
        tests: vec![
            unit("test1", "echo hi", &["foo.test7"]),
            unit("test2", "echo hi", &[]),
        ],
    };
    let mut manifest = BaseManifest::new(Some(MScriptFile { services: vec![foo, bar] }), None);
    manifest.normalize().unwrap();
    manifest
}

#[test]
fn test_dot_render_with_update_graph_status_on_cascade() {
    let manifest = example_manifest();
    let mut workflow = Workflow::new(manifest).unwrap();
    let availables = workflow.availables();
    let mut node = availables
        .iter()
        .find(|n| n.id == "foo.test1")
        .unwrap()
        .clone();
    assert_eq!(availables.len(), 4);
    assert_eq!(
        availables
            .iter()
            .map(|n| n.id.clone())
            .collect::<Vec<String>>(),
        vec!["foo.test1", "foo.test2", "foo.test3", "bar.test2"]
    );
    node.status.push(TestStatus::Completed);
    let _ = workflow.update_graph_state(node.clone());
    // A completed test will only update itself
    assert_eq!(
        r#"digraph {
    0 [ label = "foo.test1-Completed" ]
    1 [ label = "foo.test2-NotStarted" ]
    2 [ label = "foo.test3-NotStarted" ]
    3 [ label = "foo.test4-NotStarted" ]
    4 [ label = "foo.test5-NotStarted" ]
    5 [ label = "foo.test6-NotStarted" ]
    6 [ label = "foo.test7-NotStarted" ]
    7 [ label = "bar.test1-NotStarted" ]
    8 [ label = "bar.test2-NotStarted" ]
    1 -> 3 [ label = "0" ]
    2 -> 3 [ label = "1" ]
    0 -> 4 [ label = "2" ]
    2 -> 4 [ label = "3" ]
    3 -> 5 [ label = "4" ]
    4 -> 5 [ label = "5" ]
    3 -> 6 [ label = "6" ]
    4 -> 6 [ label = "7" ]
    6 -> 7 [ label = "8" ]
}
"#,
        workflow.as_dot().as_str()
    );
    let availables = workflow.availables();
    let mut node = availables
        .iter()
        .find(|n| n.id == "foo.test3")
        .unwrap()
        .clone();
    node.status.push(TestStatus::Failed);
    let _ = workflow.update_graph_state(node.clone());
    // Now, as foo.test1 as marked as Completed, it shouldn't be returned as available
    assert_eq!(availables.len(), 3);
    assert_eq!(
        availables
            .iter()
            .map(|n| n.id.clone())
            .collect::<Vec<String>>(),
        vec!["foo.test2", "foo.test3", "bar.test2"]
    );
    // A failed test will update all dependencies to skipped recursivelly
    assert_eq!(
        r#"digraph {
    0 [ label = "foo.test1-Completed" ]
    1 [ label = "foo.test2-NotStarted" ]
    2 [ label = "foo.test3-Failed" ]
    3 [ label = "foo.test4-Skipped" ]
    4 [ label = "foo.test5-Skipped" ]
    5 [ label = "foo.test6-Skipped" ]
    6 [ label = "foo.test7-Skipped" ]
    7 [ label = "bar.test1-Skipped" ]
    8 [ label = "bar.test2-NotStarted" ]
    1 -> 3 [ label = "0" ]
    2 -> 3 [ label = "1" ]
    0 -> 4 [ label = "2" ]
    2 -> 4 [ label = "3" ]
    3 -> 5 [ label = "4" ]
    4 -> 5 [ label = "5" ]
    3 -> 6 [ label = "6" ]
    4 -> 6 [ label = "7" ]
    6 -> 7 [ label = "8" ]
}
"#,
        workflow.as_dot().as_str()
    );
    let mut availables = workflow.availables();
    assert_eq!(availables.len(), 2);
    // As foo.test3 is failed, all tests that depends on foo.test3 directly or indirectly will be marked as Skipped,
    // In other hands, foo.test4, foo.test5, foo.test6, foo.test7 and bar.test1 should be skipped.
    assert_eq!(
        availables
            .iter()
            .map(|n| n.id.clone())
            .collect::<Vec<String>>(),
        vec!["foo.test2", "bar.test2"]
    );
    availables.iter_mut().for_each(|node| {
        node.status.push(TestStatus::Completed);
        let _ = workflow.update_graph_state(node.clone());
    });
    // Now, no test should be available, since all nodes are marked as completed, failed or skipped.
    let availables = workflow.availables();
    assert_eq!(availables.len(), 0);
}

#[test]
fn test_dot_render_with_update_graph_status_on_cascade_should_only_affect_directional_nodes() {
    let manifest = example_manifest();
    let mut workflow = Workflow::new(manifest).unwrap();

    let mut node = workflow.graph.nodes[4].clone();
    assert_eq!(node.id, "foo.test5");
    node.status.push(TestStatus::Failed);
    let _ = workflow.update_graph_state(node.clone());
    // Marking a node in the middle of the graph as failed should only affect the nodes that depends on it
    // directly or indirectly in the same direction.
    assert_eq!(
        r#"digraph {
    0 [ label = "foo.test1-NotStarted" ]
    1 [ label = "foo.test2-NotStarted" ]
    2 [ label = "foo.test3-NotStarted" ]
    3 [ label = "foo.test4-NotStarted" ]
    4 [ label = "foo.test5-Failed" ]
    5 [ label = "foo.test6-Skipped" ]
    6 [ label = "foo.test7-Skipped" ]
    7 [ label = "bar.test1-Skipped" ]
    8 [ label = "bar.test2-NotStarted" ]
    1 -> 3 [ label = "0" ]
    2 -> 3 [ label = "1" ]
    0 -> 4 [ label = "2" ]
    2 -> 4 [ label = "3" ]
    3 -> 5 [ label = "4" ]
    4 -> 5 [ label = "5" ]
    3 -> 6 [ label = "6" ]
    4 -> 6 [ label = "7" ]
    6 -> 7 [ label = "8" ]
}
"#,
        workflow.as_dot().as_str()
    );
}

#[test]
fn test_filter_nodes_with_filter_options() {
    let a = TestNode {
        id: "a".to_string(),
        index: 0,
        status: vec![],
        depends_on: vec![],
        executable: TestExecutable::default(),
    };
    let b = TestNode {
        id: "b".to_string(),
        index: 1,
        status: vec![],
        depends_on: vec![],
        executable: TestExecutable::default(),
    };
    let c = TestNode {
        id: "c".to_string(),
        index: 2,
        status: vec![TestStatus::Completed],
        depends_on: vec![],
        executable: TestExecutable::default(),
    };
    let graph = thorust::dag::Graph { nodes: vec![a, b, c], edges: vec![(0, 1), (1, 2)] };

    let workflow = Workflow::from_graph(graph);
    let not_started = workflow.filter_graph(FilterOptions::not_started());
    let completed = workflow.filter_graph(FilterOptions::completed());
    let all = workflow.filter_graph(FilterOptions::all());
    assert_eq!(not_started.node_count(), 2);
    assert_eq!(completed.node_count(), 1);
    assert_eq!(all.node_count(), 3);
}

#[test]
fn availables_is_idempotent_without_mutation() {
    let workflow = Workflow::new(example_manifest()).unwrap();
    let first: Vec<String> = workflow.availables().iter().map(|n| n.id.clone()).collect();
    let second: Vec<String> = workflow.availables().iter().map(|n| n.id.clone()).collect();
    assert_eq!(first, second);
    assert_eq!(first, vec!["foo.test1", "foo.test2", "foo.test3", "bar.test2"]);
}

#[test]
fn dot_round_trip_recovers_vertices_and_edges() {
    let workflow = Workflow::new(example_manifest()).unwrap();
    let dot = workflow.as_dot();
    let (vertices, edges) = thorust::dot::parse_dot(dot.as_str()).unwrap();
    assert_eq!(vertices.len(), 9);
    for (i, v) in vertices.iter().enumerate() {
        assert_eq!(v.index as usize, i);
        let node = &workflow.graph.nodes[i];
        assert_eq!(v.label, format!("{}-NotStarted", node.id));
    }
    let expected: Vec<(u32, u32)> = workflow
        .graph
        .edges
        .iter()
        .map(|e| (e.0 as u32, e.1 as u32))
        .collect();
    assert_eq!(edges, expected);
}

#[test]
fn cycle_is_rejected_at_construction() {
    let svc = Service {
        name: "foo".to_string(),
        tests: vec![
            unit("a", "echo hi", &["b"]),
            unit("b", "echo hi", &["a"]),
        ],
    };
    let mut manifest = BaseManifest::new(Some(MScriptFile { services: vec![svc] }), None);
    manifest.normalize().unwrap();
    let r = Workflow::new(manifest);
    match r {
        Err(thorust::enums::Error::Cycle { id }) => {
            assert!(id == "foo.a" || id == "foo.b");
        }
        _ => panic!("expected a cycle error"),
    }
}

#[test]
fn unknown_dependency_is_rejected() {
    let svc = Service {
        name: "foo".to_string(),
        tests: vec![unit("a", "echo hi", &["missing"])],
    };
    let mut manifest = BaseManifest::new(Some(MScriptFile { services: vec![svc] }), None);
    let r = manifest.normalize();
    match r {
        Err(thorust::enums::Error::UnknownDependency { id }) => {
            assert_eq!(id, "foo.a");
        }
        _ => panic!("expected an unknown dependency error"),
    }
}

#[test]
fn reset_rebuilds_the_graph() {
    let mut workflow = Workflow::new(example_manifest()).unwrap();
    let mut node = workflow.graph.nodes[0].clone();
    node.status.push(TestStatus::Completed);
    let _ = workflow.update_graph_state(node);
    assert_eq!(workflow.graph.nodes[0].last_status(), TestStatus::Completed);
    workflow.reset().unwrap();
    assert_eq!(workflow.graph.nodes[0].last_status(), TestStatus::NotStarted);
    assert_eq!(workflow.availables().len(), 4);
}

#[test]
fn reset_without_manifest_fails() {
    let graph = thorust::dag::Graph { nodes: vec![], edges: vec![] };
    let mut workflow = Workflow::from_graph(graph);
    assert!(workflow.reset().is_err());
}
