use stacktraceflow::config::Configuration;
use stacktraceflow::data::Action;
use stacktraceflow::data::Record;
use stacktraceflow::init::read_stacktraceflow_lines;
use stacktraceflow::init::ParseErrorKind;
use stacktraceflow::tree::VisibleTree;
use stacktraceflow::actions::perform_action;
use stacktraceflow::actions::replay_actions;

fn rec(function: &str, file: &str, line: usize) -> Record {
    Record { function: function.to_string(), file: file.to_string(), line }
}

fn plain_config(depth: u16, max_size: usize) -> Configuration {
    Configuration {
        config: "stacktraceflow.toml".to_string(),
        file: "trace.stf".to_string(),
        depth,
        max_size,
        selected: 1,
        actions: Vec::new(),
        only: Vec::new(),
        source_code_info: None,
    }
}

fn lines(raw: &[&str]) -> Vec<String> {
    raw.iter().map(|s| s.to_string()).collect()
}

fn two_node_lines() -> Vec<String> {
    lines(&["+a@f:1:0: 1:0", "+b@f:2:0: 2:0", "-b@f:2:0: 2:0", "-a@f:1:0: 1:0"])
}

fn build(depth: u16, max_size: usize, input: &[&str]) -> VisibleTree {
    let cfg = plain_config(depth, max_size);
    let mut tree = VisibleTree::new();
    let input = lines(input);
    read_stacktraceflow_lines(&cfg, &mut tree, &input).expect("trace should parse");
    tree
}

#[test]
fn two_nodes_parent_child() {
    let cfg = plain_config(10, 10_000);
    let mut tree = VisibleTree::new();
    let input = two_node_lines();
    let r = read_stacktraceflow_lines(&cfg, &mut tree, &input);
    assert!(r.is_ok());
    assert_eq!(tree.len(), 2);
    assert!(*tree.borrow_item(0).unwrap() == rec("a", "f", 1));
    assert!(*tree.borrow_item(1).unwrap() == rec("b", "f", 2));
    assert_eq!(tree.item_parent(1), Some(0));
    assert_eq!(tree.item_parent(0), None);
    assert_eq!(tree.depth_of(0), 0);
    assert_eq!(tree.depth_of(1), 1);
}

#[test]
fn max_size_one_truncates_to_root() {
    let cfg = plain_config(10, 1);
    let mut tree = VisibleTree::new();
    let input = two_node_lines();
    let r = read_stacktraceflow_lines(&cfg, &mut tree, &input);
    assert!(r.is_ok(), "stack still balances past the budget");
    assert_eq!(tree.len(), 1);
    assert!(*tree.borrow_item(0).unwrap() == rec("a", "f", 1));
}

#[test]
fn depth_bound_skips_deep_frames() {
    let tree = build(1, 10_000, &[
        "+a@f:1:0: 1:0",
        "+b@f:2:0: 2:0",
        "-b@f:2:0: 2:0",
        "-a@f:1:0: 1:0",
    ]);
    assert_eq!(tree.len(), 1);
}

#[test]
fn recursive_matching_empties_two_node_tree() {
    let mut tree = build(10, 10_000, &[
        "+a@f:1:0: 1:0",
        "+b@f:2:0: 2:0",
        "-b@f:2:0: 2:0",
        "-a@f:1:0: 1:0",
    ]);
    perform_action(&Action::Recursive(rec("a", "f", 1)), &mut tree);
    assert_eq!(tree.len(), 0);
    assert_eq!(tree.row(), None);
}

#[test]
fn delete_promotes_children() {
    // a has children b and c; deleting a leaves b and c as roots.
    let mut tree = build(10, 10_000, &[
        "+a@f:1:0: 1:0",
        "+b@f:2:0: 2:0",
        "-b@f:2:0: 2:0",
        "+c@f:3:0: 3:0",
        "-c@f:3:0: 3:0",
        "-a@f:1:0: 1:0",
    ]);
    assert_eq!(tree.len(), 3);
    perform_action(&Action::Delete(rec("a", "f", 1)), &mut tree);
    assert_eq!(tree.len(), 2);
    assert!(*tree.borrow_item(0).unwrap() == rec("b", "f", 2));
    assert!(*tree.borrow_item(1).unwrap() == rec("c", "f", 3));
    assert_eq!(tree.depth_of(0), 0);
    assert_eq!(tree.depth_of(1), 0);
}

#[test]
fn delete_matching_is_idempotent() {
    let mut tree = build(10, 10_000, &[
        "+a@f:1:0: 1:0",
        "+b@f:2:0: 2:0",
        "-b@f:2:0: 2:0",
        "-a@f:1:0: 1:0",
    ]);
    perform_action(&Action::Delete(rec("b", "f", 2)), &mut tree);
    assert_eq!(tree.len(), 1);
    let sel_after_first = tree.row();
    // re-application on the now-empty match set is a no-op
    perform_action(&Action::Delete(rec("b", "f", 2)), &mut tree);
    assert_eq!(tree.len(), 1);
    assert_eq!(tree.row(), sel_after_first);
    assert!(*tree.borrow_item(0).unwrap() == rec("a", "f", 1));
}

#[test]
fn recursive_matching_nothing_is_noop() {
    let mut tree = build(10, 10_000, &[
        "+a@f:1:0: 1:0",
        "+b@f:2:0: 2:0",
        "-b@f:2:0: 2:0",
        "-a@f:1:0: 1:0",
    ]);
    tree.set_selected_row(1);
    perform_action(&Action::Recursive(rec("zzz", "f", 9)), &mut tree);
    assert_eq!(tree.len(), 2);
    assert_eq!(tree.row(), Some(1));
    assert!(*tree.borrow_item(0).unwrap() == rec("a", "f", 1));
    assert!(*tree.borrow_item(1).unwrap() == rec("b", "f", 2));
}

#[test]
fn consecutive_matches_are_drained() {
    // two matching siblings in a row under a root
    let mut tree = build(10, 10_000, &[
        "+a@f:1:0: 1:0",
        "+b@f:2:0: 2:0",
        "-b@f:2:0: 2:0",
        "+b@f:2:0: 2:0",
        "-b@f:2:0: 2:0",
        "-a@f:1:0: 1:0",
    ]);
    assert_eq!(tree.len(), 3);
    perform_action(&Action::Recursive(rec("b", "f", 2)), &mut tree);
    assert_eq!(tree.len(), 1);
    assert!(*tree.borrow_item(0).unwrap() == rec("a", "f", 1));
}

#[test]
fn replay_applies_in_order() {
    let mut tree = build(10, 10_000, &[
        "+a@f:1:0: 1:0",
        "+b@f:2:0: 2:0",
        "-b@f:2:0: 2:0",
        "-a@f:1:0: 1:0",
    ]);
    let log = vec![
        Action::Delete(rec("a", "f", 1)),
        Action::Recursive(rec("b", "f", 2)),
    ];
    replay_actions(&log, &mut tree);
    assert_eq!(tree.len(), 0);
}

#[test]
fn mismatched_pop_is_fatal() {
    let cfg = plain_config(10, 10_000);
    let mut tree = VisibleTree::new();
    let input = lines(&["+a@f:1:0: 1:0", "-b@f:2:0: 2:0"]);
    let e = read_stacktraceflow_lines(&cfg, &mut tree, &input).unwrap_err();
    assert_eq!(e.kind, ParseErrorKind::MismatchedPop);
    assert_eq!(e.line_number, 2);
    assert_eq!(e.text, "-b@f:2:0: 2:0");
    assert_eq!(e.expected.as_deref(), Some("a@f:1:0: 1:0"));
    // no nodes inserted after the failure point: only `a` was materialized
    assert_eq!(tree.len(), 1);
}

#[test]
fn pop_on_empty_stack_is_unbalanced() {
    let cfg = plain_config(10, 10_000);
    let mut tree = VisibleTree::new();
    let input = lines(&["-a@f:1:0: 1:0"]);
    let e = read_stacktraceflow_lines(&cfg, &mut tree, &input).unwrap_err();
    assert_eq!(e.kind, ParseErrorKind::UnbalancedStack);
    assert_eq!(e.line_number, 1);
    assert!(e.expected.is_none());
}

#[test]
fn unsigned_line_is_malformed() {
    let cfg = plain_config(10, 10_000);
    let mut tree = VisibleTree::new();
    let input = lines(&["a@f:1:0: 1:0"]);
    let e = read_stacktraceflow_lines(&cfg, &mut tree, &input).unwrap_err();
    assert_eq!(e.kind, ParseErrorKind::MalformedEvent);
    assert_eq!(e.line_number, 1);
}

#[test]
fn bad_token_is_malformed_when_materialized() {
    let cfg = plain_config(10, 10_000);
    let mut tree = VisibleTree::new();
    let input = lines(&["+not a token"]);
    let e = read_stacktraceflow_lines(&cfg, &mut tree, &input).unwrap_err();
    assert_eq!(e.kind, ParseErrorKind::MalformedEvent);
}

#[test]
fn bad_token_beyond_depth_is_never_parsed() {
    // in depth/size mode the malformed line sits deeper than the depth
    // bound, so it is never parsed and the stack still balances
    let cfg = plain_config(1, 10_000);
    let mut tree = VisibleTree::new();
    let input = lines(&["+a@f:1:0: 1:0", "+not a token", "-not a token", "-a@f:1:0: 1:0"]);
    let r = read_stacktraceflow_lines(&cfg, &mut tree, &input);
    assert!(r.is_ok());
    assert_eq!(tree.len(), 1);
}

#[test]
fn truncated_trace_is_fatal() {
    let cfg = plain_config(10, 10_000);
    let mut tree = VisibleTree::new();
    let input = lines(&["+a@f:1:0: 1:0"]);
    let e = read_stacktraceflow_lines(&cfg, &mut tree, &input).unwrap_err();
    assert_eq!(e.kind, ParseErrorKind::TruncatedTrace);
    assert_eq!(e.line_number, 2);
    assert_eq!(e.text, "");
}

#[test]
fn selection_clamps_to_surviving_rows() {
    let mut tree = build(10, 10_000, &[
        "+a@f:1:0: 1:0",
        "+b@f:2:0: 2:0",
        "-b@f:2:0: 2:0",
        "-a@f:1:0: 1:0",
    ]);
    tree.set_selected_row(5);
    assert_eq!(tree.row(), Some(1));
    tree.set_selected_row(0);
    assert_eq!(tree.row(), Some(0));
}

#[test]
fn selection_follows_removed_rows() {
    // selection on the second `b`; removing all `b` subtrees pulls it up
    let mut tree = build(10, 10_000, &[
        "+a@f:1:0: 1:0",
        "+b@f:2:0: 2:0",
        "-b@f:2:0: 2:0",
        "+b@f:2:0: 2:0",
        "-b@f:2:0: 2:0",
        "-a@f:1:0: 1:0",
    ]);
    tree.set_selected_row(2);
    perform_action(&Action::Recursive(rec("b", "f", 2)), &mut tree);
    assert_eq!(tree.len(), 1);
    assert_eq!(tree.row(), Some(0));
}

#[test]
fn extract_item_promotes_grandchildren() {
    let mut tree = build(10, 10_000, &[
        "+a@f:1:0: 1:0",
        "+b@f:2:0: 2:0",
        "+c@f:3:0: 3:0",
        "-c@f:3:0: 3:0",
        "-b@f:2:0: 2:0",
        "-a@f:1:0: 1:0",
    ]);
    let removed = tree.extract_item(1).unwrap();
    assert!(removed == rec("b", "f", 2));
    assert_eq!(tree.len(), 2);
    assert!(*tree.borrow_item(1).unwrap() == rec("c", "f", 3));
    assert_eq!(tree.depth_of(1), 1);
    assert_eq!(tree.item_parent(1), Some(0));
}

#[test]
fn remove_item_reports_subtree() {
    let mut tree = build(10, 10_000, &[
        "+a@f:1:0: 1:0",
        "+b@f:2:0: 2:0",
        "+c@f:3:0: 3:0",
        "-c@f:3:0: 3:0",
        "-b@f:2:0: 2:0",
        "-a@f:1:0: 1:0",
    ]);
    let removed = tree.remove_item(1).unwrap();
    assert_eq!(removed.len(), 2);
    assert!(removed[0] == rec("b", "f", 2));
    assert!(removed[1] == rec("c", "f", 3));
    assert_eq!(tree.len(), 1);
}
