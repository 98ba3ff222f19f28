use thorust::conversions::{new_uuidv4, to_grpcurl_command, try_to_grpcurl_command};
use thorust::manifests::scripts::{MScriptFile, Service};
use thorust::manifests::{merge_all, BaseManifest};
use thorust::enums::ManifestKind;
use thorust::graph::{TestExecutable, TestNode};
use thorust::storage::{
    assemble_node_info, get_all_processed_node_history, get_processed_node_history, DbNode,
    NodeHistory,
};

#[test]
fn uuidv4_renders_as_36_characters() {
    let a = new_uuidv4();
    let b = new_uuidv4();
    assert_eq!(a.len(), 36);
    assert_eq!(b.len(), 36);
    assert_eq!(a.chars().filter(|c| *c == '-').count(), 4);
}

#[test]
fn grpcurl_command_materializes_without_headers() {
    let cmd = to_grpcurl_command(
        &None,
        "{}",
        "svc.proto",
        "localhost:50051",
        "pkg.Service/Call",
    );
    assert_eq!(
        cmd,
        "grpcurl -plaintext  -import-path . -proto svc.proto -d '{}' localhost:50051 pkg.Service/Call"
    );
}

#[test]
fn grpcurl_command_joins_headers_and_unescapes_body() {
    let headers = Some(vec!["a: 1".to_string(), "b: 2".to_string()]);
    let cmd = try_to_grpcurl_command(
        &headers,
        "line1\\nline2",
        "svc.proto",
        "localhost:50051",
        "pkg.Service/Call",
    )
    .unwrap();
    assert_eq!(
        cmd,
        "grpcurl -plaintext -H 'a: 1' -H 'b: 2' -import-path . -proto svc.proto -d 'line1\nline2' localhost:50051 pkg.Service/Call"
    );
}

#[test]
fn malformed_escape_yields_no_command() {
    let r = try_to_grpcurl_command(&None, "broken\\q", "p.proto", "addr", "m");
    assert!(r.is_none());
}

#[test]
fn record_result_captures_the_right_stream() {
    let mut exe = TestExecutable::default();
    let ok = exe.record_result(Some(0), "out".to_string(), "err".to_string());
    assert!(ok);
    assert_eq!(exe.output.as_deref(), Some("out"));
    assert_eq!(exe.exit_code, Some(0));

    let mut exe = TestExecutable::default();
    let ok = exe.record_result(Some(3), "out".to_string(), "err".to_string());
    assert!(!ok);
    assert_eq!(exe.output.as_deref(), Some("err"));
    assert_eq!(exe.exit_code, Some(3));

    let mut exe = TestExecutable::default();
    let ok = exe.record_result(None, "out".to_string(), "err".to_string());
    assert!(!ok);
    assert_eq!(exe.output.as_deref(), Some("err"));
}

fn row(id: i32, status: &str, node: i32, data: &str, created_at: u64) -> NodeHistory {
    NodeHistory { id, status: status.to_string(), node, data: data.to_string(), created_at }
}

#[test]
fn processed_history_pairs_rows_and_derives_durations() {
    let rows = vec![
        row(1, "NotStarted", 1, "", 1000),
        row(2, "Running", 1, "", 2000),
        row(3, "Completed", 1, "hi", 3500),
        row(4, "NotStarted", 2, "", 1100),
    ];
    let derived = get_processed_node_history(&rows, 1);
    assert_eq!(derived.len(), 2);
    assert_eq!(derived[0].from_status, "NotStarted");
    assert_eq!(derived[0].to_status, "Running");
    assert_eq!(derived[0].duration_millis, 1000);
    assert_eq!(derived[1].from_status, "Running");
    assert_eq!(derived[1].to_status, "Completed");
    assert_eq!(derived[1].duration_millis, 1500);

    // The final status of each node has no successor and is filtered out.
    let all = get_all_processed_node_history(&rows);
    assert_eq!(all.len(), 2);
}

#[test]
fn node_info_carries_the_terminal_output() {
    let node = DbNode {
        id: 1,
        name: "n".to_string(),
        test_id: "foo.a".to_string(),
        description: "d".to_string(),
        service: "foo".to_string(),
    };
    let history = vec![
        row(1, "NotStarted", 1, "", 1000),
        row(2, "Running", 1, "ignored", 2000),
        row(3, "Completed", 1, "the output", 3000),
    ];
    let processed = get_processed_node_history(&history, 1);
    let info = assemble_node_info(&node, &history, processed);
    assert_eq!(info.data, "the output");
    assert_eq!(info.test_id, "foo.a");
    assert_eq!(info.history.len(), 2);

    let empty_info = assemble_node_info(&node, &vec![row(1, "NotStarted", 1, "", 1000)], vec![]);
    assert_eq!(empty_info.data, "");
}

#[test]
fn db_node_is_keyed_by_the_node_position() {
    let node = TestNode {
        id: "foo.a".to_string(),
        index: 7,
        depends_on: vec![],
        status: vec![],
        executable: TestExecutable {
            id: "foo.a".to_string(),
            service: "foo".to_string(),
            name: "a".to_string(),
            command: "echo hi".to_string(),
            description: "desc".to_string(),
            output: None,
            exit_code: None,
            kind: ManifestKind::Scripts,
        },
    };
    let db = DbNode::from_test_node(&node);
    assert_eq!(db.id, 7);
    assert_eq!(db.test_id, "foo.a");
    assert_eq!(db.name, "a");
    assert_eq!(db.service, "foo");
}

#[test]
fn merge_concatenates_services_of_the_same_kind() {
    let m1 = BaseManifest::new(
        Some(MScriptFile {
            services: vec![Service { name: "one".to_string(), tests: vec![] }],
        }),
        None,
    );
    let m2 = BaseManifest::new(
        Some(MScriptFile {
            services: vec![Service { name: "two".to_string(), tests: vec![] }],
        }),
        None,
    );
    let merged = merge_all(vec![m1, m2]);
    let names: Vec<String> = merged
        .scripts
        .unwrap()
        .services
        .iter()
        .map(|s| s.name.clone())
        .collect();
    assert_eq!(names, vec!["two", "one"]);
    assert!(merged.grpc.is_none());
}
