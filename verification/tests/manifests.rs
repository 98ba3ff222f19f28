use thorust::enums::{ManifestKind, TestStatus};
use thorust::manifests::grpc::{MGrpcFile, Service as GrpcService, TestUnit as GrpcTest};
use thorust::manifests::scripts::{MScriptFile, Service, TestUnit};
use thorust::manifests::BaseManifest;
use thorust::workflow::Workflow;

fn grpc_test(id: &str, body: &str, depends_on: &[&str]) -> GrpcTest {
    GrpcTest {
        name: format!("grpc {}", id),
        id: id.to_string(),
        depends_on: depends_on.iter().map(|d| d.to_string()).collect(),
        description: format!("calls {}", id),
        method: "pkg.Svc/Call".to_string(),
        proto: "svc.proto".to_string(),
        body: body.to_string(),
        headers: None,
        expected: None,
    }
}

#[test]
fn grpc_manifest_materializes_grpcurl_commands() {
    let svc = GrpcService {
        name: "pay".to_string(),
        address: "localhost:50051".to_string(),
        tests: vec![grpc_test("ping", "{}", &[]), grpc_test("pong", "{}", &["ping"])],
    };
    let mut manifest = BaseManifest::new(None, Some(MGrpcFile { services: vec![svc] }));
    manifest.normalize().unwrap();
    let nodes = manifest.as_test_nodes().unwrap();
    assert_eq!(nodes.len(), 2);
    assert_eq!(nodes[0].id, "pay.ping");
    assert_eq!(nodes[1].id, "pay.pong");
    assert_eq!(nodes[1].depends_on, vec!["pay.ping"]);
    assert_eq!(nodes[0].executable.kind, ManifestKind::Grpc);
    assert_eq!(
        nodes[0].executable.command,
        "grpcurl -plaintext  -import-path . -proto svc.proto -d '{}' localhost:50051 pkg.Svc/Call"
    );
}

#[test]
fn grpc_manifest_with_malformed_body_is_rejected() {
    let svc = GrpcService {
        name: "pay".to_string(),
        address: "localhost:50051".to_string(),
        tests: vec![grpc_test("ping", "broken\\q", &[])],
    };
    let mut manifest = BaseManifest::new(None, Some(MGrpcFile { services: vec![svc] }));
    match manifest.normalize() {
        Err(thorust::enums::Error::InvalidEscape { id }) => assert_eq!(id, "pay.ping"),
        other => panic!("expected an invalid escape error, got {:?}", other),
    }
}

#[test]
fn mixed_manifest_indices_are_dense() {
    let scripts = MScriptFile {
        services: vec![Service {
            name: "foo".to_string(),
            tests: vec![TestUnit {
                name: "a".to_string(),
                id: "a".to_string(),
                depends_on: vec![],
                command: "echo hi".to_string(),
                description: "d".to_string(),
            }],
        }],
    };
    let grpc = MGrpcFile {
        services: vec![GrpcService {
            name: "pay".to_string(),
            address: "localhost:50051".to_string(),
            tests: vec![grpc_test("ping", "{}", &[])],
        }],
    };
    let mut manifest = BaseManifest::new(Some(scripts), Some(grpc));
    manifest.normalize().unwrap();
    let nodes = manifest.as_test_nodes().unwrap();
    assert_eq!(nodes.len(), 2);
    assert_eq!(nodes[0].index, 0);
    assert_eq!(nodes[1].index, 1);
    assert_eq!(nodes[0].id, "foo.a");
    assert_eq!(nodes[1].id, "pay.ping");
}

#[test]
fn dependency_service_is_inferred_during_normalization() {
    let scripts = MScriptFile {
        services: vec![
            Service {
                name: "foo".to_string(),
                tests: vec![
                    TestUnit {
                        name: "a".to_string(),
                        id: "a".to_string(),
                        depends_on: vec![],
                        command: "echo hi".to_string(),
                        description: "d".to_string(),
                    },
                    TestUnit {
                        name: "b".to_string(),
                        id: "b".to_string(),
                        // a bare id: the test's own service is inferred
                        depends_on: vec!["a".to_string()],
                        command: "echo hi".to_string(),
                        description: "d".to_string(),
                    },
                ],
            },
            Service {
                name: "bar".to_string(),
                tests: vec![TestUnit {
                    name: "c".to_string(),
                    id: "c".to_string(),
                    // a qualified id: the named service is kept
                    depends_on: vec!["foo.b".to_string()],
                    command: "echo hi".to_string(),
                    description: "d".to_string(),
                }],
            },
        ],
    };
    let mut manifest = BaseManifest::new(Some(scripts), None);
    manifest.normalize().unwrap();
    let nodes = manifest.as_test_nodes().unwrap();
    assert_eq!(nodes[1].id, "foo.b");
    assert_eq!(nodes[1].depends_on, vec!["foo.a"]);
    assert_eq!(nodes[2].id, "bar.c");
    assert_eq!(nodes[2].depends_on, vec!["foo.b"]);
}

#[test]
fn orphan_nodes_have_no_incoming_edges() {
    let scripts = MScriptFile {
        services: vec![Service {
            name: "foo".to_string(),
            tests: vec![
                TestUnit {
                    name: "a".to_string(),
                    id: "a".to_string(),
                    depends_on: vec![],
                    command: "echo hi".to_string(),
                    description: "d".to_string(),
                },
                TestUnit {
                    name: "b".to_string(),
                    id: "b".to_string(),
                    depends_on: vec!["a".to_string()],
                    command: "echo hi".to_string(),
                    description: "d".to_string(),
                },
            ],
        }],
    };
    let mut manifest = BaseManifest::new(Some(scripts), None);
    manifest.normalize().unwrap();
    let workflow = Workflow::new(manifest).unwrap();
    let orphans: Vec<String> = workflow.orphan_nodes().iter().map(|n| n.id.clone()).collect();
    assert_eq!(orphans, vec!["foo.a"]);
}

#[test]
fn update_node_status_appends_and_reports() {
    let scripts = MScriptFile {
        services: vec![Service {
            name: "foo".to_string(),
            tests: vec![TestUnit {
                name: "a".to_string(),
                id: "a".to_string(),
                depends_on: vec![],
                command: "echo hi".to_string(),
                description: "d".to_string(),
            }],
        }],
    };
    let mut manifest = BaseManifest::new(Some(scripts), None);
    manifest.normalize().unwrap();
    let mut workflow = Workflow::new(manifest).unwrap();
    let event = workflow.update_node_status(0, TestStatus::Running);
    assert_eq!(
        workflow.graph.nodes[0].status,
        vec![TestStatus::NotStarted, TestStatus::Running]
    );
    assert_eq!(event.node.last_status(), TestStatus::Running);
    assert!(event.dot.contains("foo.a-Running"));
}
