use relayburn_analyze::flow_graph::{
    check_layout_fits, flow_graph_from_trees, FlowEdgeKind, FlowGraph, FlowNodeKind, FlowOpts,
    TurnTokens, INTER_TURN_GAP, RAIL_GAP,
};
use relayburn_analyze::span_tree::{AttrValue, SpanKind, SpanNode, TurnSpanTree};

fn make_tree(turn_number: u32, root: SpanNode) -> TurnSpanTree {
    TurnSpanTree {
        session_id: "sess-1".to_string(),
        turn_id: format!("msg-{turn_number}"),
        turn_number,
        root,
    }
}

fn inference(model: &str, request_id: &str) -> SpanNode {
    let mut n = SpanNode::new(SpanKind::Inference, model);
    n.set_attr("model", AttrValue::str(model));
    n.set_attr("request_id", AttrValue::str(request_id));
    n.set_attr("tokens.input", AttrValue::Int(100));
    n.set_attr("tokens.output", AttrValue::Int(20));
    n.set_attr("tokens.cache_read", AttrValue::Int(500));
    n.set_attr("tokens.cache_write", AttrValue::Int(0));
    n.set_attr("tokens.reasoning", AttrValue::Int(0));
    n.start_ms = 1_000;
    n.end_ms = 1_500;
    n
}

fn tool_use(name: &str, id: &str) -> SpanNode {
    let mut n = SpanNode::new(SpanKind::ToolUse, name);
    n.set_attr("tool_use_id", AttrValue::str(id));
    n
}

fn subagent(agent_id: &str, unattached: bool) -> SpanNode {
    let mut n = SpanNode::new(SpanKind::Subagent, "helper");
    n.set_attr("agent_id", AttrValue::str(agent_id));
    n.set_attr("agent_type", AttrValue::str("helper"));
    if unattached {
        n.set_attr("unattached", AttrValue::Bool(true));
    }
    n
}

fn turn_root() -> SpanNode {
    SpanNode::new(SpanKind::Turn, "turn")
}

fn graph_of(trees: &[TurnSpanTree], opts: FlowOpts) -> FlowGraph {
    assert!(check_layout_fits(trees, opts));
    flow_graph_from_trees("sess-1", trees, opts)
}

#[test]
fn empty_trees_produce_empty_graph() {
    let graph = graph_of(&[], FlowOpts::default());
    assert_eq!(graph.nodes.len(), 0);
    assert_eq!(graph.edges.len(), 0);
    assert_eq!(graph.turn_count, 0);
    assert_eq!(graph.total_turn_count, 0);
    assert!(!graph.truncated);
    assert_eq!(graph.session_id, "sess-1");
}

#[test]
fn single_inference_turn_emits_one_node_zero_edges() {
    let mut root = turn_root();
    root.children.push(inference("sonnet", "req-1"));
    let graph = graph_of(&[make_tree(0, root)], FlowOpts::default());
    assert_eq!(graph.nodes.len(), 1);
    let node = &graph.nodes[0];
    assert_eq!(node.kind, FlowNodeKind::Inference);
    assert_eq!(node.id, "msg-0:inf-0");
    assert_eq!(node.rail, 0);
    assert_eq!(node.turn_number, 0);
    assert_eq!(node.x, 0);
    assert_eq!(node.y, 0);
    assert_eq!(node.tokens.input, 100);
    assert_eq!(node.tokens.output, 20);
    assert_eq!(node.duration_ms, 500);
    assert_eq!(graph.edges.len(), 0);
}

#[test]
fn two_inferences_in_a_turn_are_connected_by_default_edge() {
    let mut root = turn_root();
    root.children.push(inference("sonnet", "req-1"));
    root.children.push(inference("sonnet", "req-2"));
    let graph = graph_of(&[make_tree(0, root)], FlowOpts::default());
    assert_eq!(graph.nodes.len(), 2);
    assert_eq!(graph.edges.len(), 1);
    assert_eq!(graph.edges[0].kind, FlowEdgeKind::Default);
    assert_eq!(graph.edges[0].from, "msg-0:inf-0");
    assert_eq!(graph.edges[0].to, "msg-0:inf-1");
}

#[test]
fn tool_use_under_inference_emits_node_and_default_edge() {
    let mut inf = inference("sonnet", "req-1");
    inf.children.push(tool_use("Bash", "tu-a"));
    let mut root = turn_root();
    root.children.push(inf);
    let graph = graph_of(&[make_tree(0, root)], FlowOpts::default());
    assert_eq!(graph.nodes.len(), 2);
    assert_eq!(graph.nodes[1].kind, FlowNodeKind::ToolUse);
    assert_eq!(graph.nodes[1].id, "msg-0:tu-tu-a");
    assert_eq!(graph.edges.len(), 1);
    assert_eq!(graph.edges[0].kind, FlowEdgeKind::Default);
    assert_eq!(graph.edges[0].from, "msg-0:inf-0");
    assert_eq!(graph.edges[0].to, "msg-0:tu-tu-a");
}

#[test]
fn task_dispatch_emits_subagent_rail_with_dispatch_edge() {
    let mut task = tool_use("Task", "tu-task");
    task.children.push(subagent("agent-1", false));
    let mut inf = inference("sonnet", "req-1");
    inf.children.push(task);
    let mut root = turn_root();
    root.children.push(inf);
    let graph = graph_of(&[make_tree(0, root)], FlowOpts::default());
    assert_eq!(graph.nodes.len(), 3);
    let sub = graph
        .nodes
        .iter()
        .find(|n| n.kind == FlowNodeKind::Subagent)
        .expect("subagent node missing");
    assert_eq!(sub.rail, 1, "first subagent rail should be 1");
    assert_eq!(sub.y, RAIL_GAP * 2);
    let kinds: Vec<FlowEdgeKind> = graph.edges.iter().map(|e| e.kind).collect();
    assert!(kinds.contains(&FlowEdgeKind::Default));
    assert!(kinds.contains(&FlowEdgeKind::Dispatch));
    assert!(!kinds.contains(&FlowEdgeKind::Return));
}

#[test]
fn task_dispatch_with_following_turn_emits_return_edge() {
    let mut task = tool_use("Task", "tu-task");
    task.children.push(subagent("agent-1", false));
    let mut inf = inference("sonnet", "req-1");
    inf.children.push(task);
    let mut root0 = turn_root();
    root0.children.push(inf);
    let mut root1 = turn_root();
    root1.children.push(inference("sonnet", "req-2"));
    let graph = graph_of(&[make_tree(0, root0), make_tree(1, root1)], FlowOpts::default());
    let kinds: Vec<FlowEdgeKind> = graph.edges.iter().map(|e| e.kind).collect();
    assert!(kinds.contains(&FlowEdgeKind::Return), "expected a Return edge, got {:?}", kinds);
    let return_edge = graph
        .edges
        .iter()
        .find(|e| e.kind == FlowEdgeKind::Return)
        .unwrap();
    assert_eq!(return_edge.to, "msg-1:inf-0");
}

#[test]
fn orphan_subagent_emits_unattached_edge() {
    let mut root = turn_root();
    root.children.push(inference("sonnet", "req-1"));
    root.children.push(subagent("agent-orphan", true));
    let graph = graph_of(&[make_tree(0, root)], FlowOpts::default());
    let unattached: Vec<_> = graph
        .edges
        .iter()
        .filter(|e| e.kind == FlowEdgeKind::Unattached)
        .collect();
    assert_eq!(unattached.len(), 1, "exactly one Unattached edge expected");
    assert_eq!(unattached[0].from, "msg-0:inf-0");
    assert!(unattached[0].to.contains(":sa-agent-orphan"));
}

#[test]
fn turn_columns_use_inter_turn_gap_spacing() {
    let mut root0 = turn_root();
    root0.children.push(inference("sonnet", "req-1"));
    let mut root1 = turn_root();
    root1.children.push(inference("sonnet", "req-2"));
    let graph = graph_of(&[make_tree(0, root0), make_tree(1, root1)], FlowOpts::default());
    let n0 = graph.nodes.iter().find(|n| n.turn_number == 0).unwrap();
    let n1 = graph.nodes.iter().find(|n| n.turn_number == 1).unwrap();
    assert_eq!(n0.x, 0);
    assert_eq!(n1.x, INTER_TURN_GAP);
}

fn plain_trees(n: u32) -> Vec<TurnSpanTree> {
    (0..n)
        .map(|i| {
            let mut root = turn_root();
            root.children.push(inference("sonnet", "r"));
            make_tree(i, root)
        })
        .collect()
}

#[test]
fn max_turns_truncates_and_flags_truncated() {
    let graph = graph_of(&plain_trees(10), FlowOpts { max_turns: Some(3) });
    assert_eq!(graph.turn_count, 3);
    assert_eq!(graph.total_turn_count, 10);
    assert!(graph.truncated);
    assert_eq!(graph.nodes.iter().filter(|n| n.rail == 0).count(), 3);
}

#[test]
fn max_turns_zero_disables_cap() {
    let graph = graph_of(&plain_trees(3), FlowOpts { max_turns: Some(0) });
    assert_eq!(graph.turn_count, 3);
    assert!(!graph.truncated);
}

#[test]
fn the_usual_cap_is_fifty_turns() {
    let graph = graph_of(&plain_trees(51), FlowOpts::default());
    assert_eq!(graph.turn_count, 50);
    assert_eq!(graph.total_turn_count, 51);
    assert!(graph.truncated);
}

#[test]
fn kinds_have_wire_names() {
    assert_eq!(FlowNodeKind::ToolUse.wire_str(), "tool-use");
    assert_eq!(FlowEdgeKind::Unattached.wire_str(), "unattached");
}

#[test]
fn every_edge_joins_nodes_that_are_there() {
    let mut task = tool_use("Task", "tu-task");
    task.children.push(subagent("agent-1", false));
    let mut inf = inference("sonnet", "req-1");
    inf.children.push(task);
    let mut root = turn_root();
    root.children.push(inf);
    root.children.push(subagent("agent-2", true));
    let graph = graph_of(&[make_tree(0, root)], FlowOpts::default());
    for e in &graph.edges {
        assert!(graph.nodes.iter().any(|n| n.id == e.from));
        assert!(graph.nodes.iter().any(|n| n.id == e.to));
    }
}

#[test]
fn counters_add_up_and_stop_at_the_end() {
    let mut sum = TurnTokens { input: 1, output: 2, cache_read: 3, cache_write: 4, reasoning: u64::MAX };
    sum.add(TurnTokens { input: 10, output: 20, cache_read: 30, cache_write: 40, reasoning: 1 });
    assert_eq!(
        sum,
        TurnTokens { input: 11, output: 22, cache_read: 33, cache_write: 44, reasoning: u64::MAX },
    );
}

#[test]
fn an_inference_bears_the_name_of_its_model() {
    let mut unnamed = SpanNode::new(SpanKind::Inference, "spare-name");
    unnamed.start_ms = 1;
    let mut root = turn_root();
    root.children.push(inference("sonnet", "req-1"));
    root.children.push(unnamed);
    let graph = graph_of(&[make_tree(0, root)], FlowOpts::default());
    assert_eq!(graph.nodes[0].label, "sonnet");
    assert_eq!(graph.nodes[0].model.as_deref(), Some("sonnet"));
    assert_eq!(graph.nodes[1].label, "spare-name");
}

#[test]
fn ids_have_one_form_on_every_rail() {
    let mut sub = subagent("a1", false);
    sub.children.push(tool_use("Read", "tu-x"));
    sub.children.push(inference("haiku", "req-2"));
    let mut task = tool_use("Task", "tu-task");
    task.children.push(sub);
    let mut inf = inference("sonnet", "req-1");
    inf.children.push(task);
    let mut root = turn_root();
    root.children.push(inf);
    root.children.push(inference("sonnet", "req-3"));
    let graph = graph_of(&[make_tree(0, root)], FlowOpts::default());
    let ids: Vec<(&str, u32)> = graph.nodes.iter().map(|n| (n.id.as_str(), n.rail)).collect();
    assert_eq!(
        ids,
        vec![
            ("msg-0:inf-0", 0),
            ("msg-0:tu-tu-task", 0),
            ("msg-0:sa-a1", 1),
            ("msg-0:tu-tu-x", 1),
            ("msg-0:inf-2", 1),
            ("msg-0:inf-1", 0),
        ],
    );
    assert_eq!(graph.nodes[4].label, "haiku");
}

#[test]
fn a_rail_alone_in_its_turn_stands_below_its_head() {
    let mut sub = subagent("a1", true);
    sub.children.push(tool_use("Read", "tu-x"));
    let mut root = turn_root();
    root.children.push(sub);
    let graph = graph_of(&[make_tree(0, root)], FlowOpts::default());
    assert_eq!(graph.nodes[0].label, "helper");
    let rows: Vec<(&str, u32, i32)> =
        graph.nodes.iter().map(|n| (n.id.as_str(), n.rail, n.y)).collect();
    assert_eq!(rows, vec![("msg-0:sa-a1", 1, RAIL_GAP), ("msg-0:tu-tu-x", 1, 2 * RAIL_GAP)]);
}

#[test]
fn a_rail_bears_the_type_of_its_agent() {
    let mut typed = SpanNode::new(SpanKind::Subagent, "Explore the code");
    typed.set_attr("agent_type", AttrValue::str("explorer"));
    let named = SpanNode::new(SpanKind::Subagent, "Explore the code");
    let bare = SpanNode::new(SpanKind::Subagent, "");
    let mut root = turn_root();
    root.children.push(typed);
    root.children.push(named);
    root.children.push(bare);
    let graph = graph_of(&[make_tree(0, root)], FlowOpts::default());
    let labels: Vec<&str> = graph.nodes.iter().map(|n| n.label.as_str()).collect();
    assert_eq!(labels, vec!["explorer", "Explore the code", "subagent"]);
    assert_eq!(graph.nodes[2].id, "msg-0:sa-rail-3");
}

#[test]
fn a_rail_returns_to_the_next_inference_of_the_same_turn() {
    let mut task = tool_use("Task", "tu-task");
    task.children.push(subagent("agent-1", false));
    let mut inf = inference("sonnet", "req-1");
    inf.children.push(task);
    let mut root0 = turn_root();
    root0.children.push(inf);
    root0.children.push(inference("sonnet", "req-2"));
    let mut root1 = turn_root();
    root1.children.push(inference("sonnet", "req-3"));
    let graph = graph_of(&[make_tree(0, root0), make_tree(1, root1)], FlowOpts::default());
    let back: Vec<(&str, &str)> = graph
        .edges
        .iter()
        .filter(|e| e.kind == FlowEdgeKind::Return)
        .map(|e| (e.from.as_str(), e.to.as_str()))
        .collect();
    assert_eq!(back, vec![("msg-0:sa-agent-1", "msg-0:inf-1")]);
}
