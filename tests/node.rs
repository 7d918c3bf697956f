use hyperon::node::{BusMessage, DASNode, DASNodeStatus, ServerStatus};

fn message(command: &str, args: &[&str]) -> BusMessage {
    BusMessage {
        command: command.to_string(),
        args: args.iter().map(|s| s.to_string()).collect(),
        sender: "peer:1".to_string(),
        is_broadcast: false,
        visited_recipients: vec![],
    }
}

#[test]
fn query_builds_the_command() {
    let mut node = DASNode::new("0.0.0.0".to_string(), 8080, "0.0.0.0".to_string(), 7777);
    assert_eq!(node.get_status(), ServerStatus::Ready);
    let m = node.query("LINK_TEMPLATE Expression 2  VARIABLE x", "context", false);
    assert_eq!(m.command, "pattern_matching_query");
    assert_eq!(
        m.args,
        vec!["0.0.0.0:8080", "context", "false", "LINK_TEMPLATE", "Expression", "2", "VARIABLE", "x"]
    );
    assert_eq!(m.sender, "0.0.0.0:8080");
    assert!(!m.is_broadcast);
    assert_eq!(node.get_status(), ServerStatus::Processing);
    assert!(!node.is_complete());
    assert_eq!(node.client_endpoint(), "0.0.0.0:7777");
    let m = node.query("a\x0Bb", "c", true);
    assert_eq!(m.args, vec!["0.0.0.0:8080", "c", "true", "a", "b"]);
}

#[test]
fn messages_change_status_and_results() {
    let mut node = DASNode::new("h".to_string(), 1, "c".to_string(), 2);
    node.query("TEST", "ctx", true);
    node.execute_message(message("query_answer_tokens_flow", &["x a", "x b"]));
    assert_eq!(node.get_status(), ServerStatus::Processing);
    node.execute_message(message("query_answer_flow", &["ignored"]));
    assert_eq!(node.get_results(), vec!["x a".to_string(), "x b".to_string()]);
    assert_eq!(node.get_results(), Vec::<String>::new());
    node.execute_message(message("query_answers_finished", &[]));
    assert_eq!(node.get_status(), ServerStatus::Ready);
    assert!(node.is_complete());
    node.execute_message(message("something_else", &["z"]));
    assert_eq!(node.get_status(), ServerStatus::Ready);
    node.query("TEST", "ctx", false);
    node.execute_message(message("something_else", &["z"]));
    assert_eq!(node.get_status(), ServerStatus::Processing);
    assert!(!node.is_complete());
    assert_eq!(node.get_results(), Vec::<String>::new());
    node.stop();
    assert_eq!(node.get_status(), ServerStatus::Stopped);
}

#[test]
fn status_cell_changes() {
    let mut s = DASNodeStatus::default();
    assert_eq!(s.0, ServerStatus::Ready);
    s.change_status(ServerStatus::Stopped);
    assert_eq!(s.0, ServerStatus::Stopped);
    assert_eq!(ServerStatus::default(), ServerStatus::Ready);
}
