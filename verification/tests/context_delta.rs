use relayburn_analyze::context_delta::{
    check_session_fits, deltas_for_session, ContextDelta, ContextDeltaOpts, InterveningStep,
    OwnerFilter, OwnerRail, ReminderSource,
};
use relayburn_analyze::records::CompactionEvent;
use relayburn_analyze::span_tree::{AttrValue, SpanKind, SpanNode, SpanStatus, TurnSpanTree};
use std::time::Duration;

fn make_inf(req_id: &str, input: i64, cache_read: i64, cache_write: i64) -> SpanNode {
    let mut n = SpanNode::new(SpanKind::Inference, "sonnet-4-6");
    n.set_attr("model", AttrValue::str("sonnet-4-6"));
    n.set_attr("request_id", AttrValue::str(req_id));
    n.set_attr("tokens.input", AttrValue::Int(input));
    n.set_attr("tokens.output", AttrValue::Int(0));
    n.set_attr("tokens.cache_read", AttrValue::Int(cache_read));
    n.set_attr("tokens.cache_write", AttrValue::Int(cache_write));
    n.set_attr("tokens.reasoning", AttrValue::Int(0));
    n
}

fn make_tool_use(name: &str, tool_use_id: &str) -> SpanNode {
    let mut n = SpanNode::new(SpanKind::ToolUse, name);
    n.set_attr("tool_use_id", AttrValue::str(tool_use_id));
    n
}

fn make_tool_result(tool_use_id: &str, bytes: i64, truncated: bool) -> SpanNode {
    let mut n = SpanNode::new(SpanKind::ToolResult, "tool-result");
    n.set_attr("tool_use_id", AttrValue::str(tool_use_id));
    n.set_attr("output_bytes", AttrValue::Int(bytes));
    if truncated {
        n.set_attr("output_truncated", AttrValue::Bool(true));
    }
    n
}

fn make_user_prompt() -> SpanNode {
    SpanNode::new(SpanKind::UserPrompt, "user-prompt")
}

fn turn_tree(session: &str, turn: &str, root: SpanNode) -> TurnSpanTree {
    TurnSpanTree {
        session_id: session.to_string(),
        turn_id: turn.to_string(),
        turn_number: 0,
        root,
    }
}

fn turn_of(children: Vec<SpanNode>) -> TurnSpanTree {
    let mut root = SpanNode::new(SpanKind::Turn, "turn");
    root.status = SpanStatus::Success;
    root.children.push(make_user_prompt());
    root.children.extend(children);
    turn_tree("sess-1", "msg-1", root)
}

fn deltas(
    trees: &[TurnSpanTree],
    compactions: &[CompactionEvent],
    opts: &ContextDeltaOpts,
) -> Vec<ContextDelta> {
    assert!(check_session_fits(trees));
    deltas_for_session(trees, compactions, opts)
}

fn no_floor() -> ContextDeltaOpts {
    ContextDeltaOpts {
        min_delta: Some(0),
        ..ContextDeltaOpts::default()
    }
}

#[test]
fn bash_blowup_surfaces_as_top_delta_with_bash_driver() {
    let mut inf1 = make_inf("req-1", 1000, 0, 0);
    let mut bash_use = make_tool_use("Bash", "tu-1");
    bash_use.children.push(make_tool_result("tu-1", 40_000, false));
    inf1.children.push(bash_use);
    let inf2 = make_inf("req-2", 12_000, 0, 0);
    let tree = turn_of(vec![inf1, inf2]);
    let rows = deltas(&[tree], &[], &ContextDeltaOpts::default());
    assert_eq!(rows.len(), 1, "one pairwise delta expected");
    let d = &rows[0];
    assert_eq!(d.session_id, "sess-1");
    assert_eq!(d.turn_id, "msg-1");
    assert_eq!(d.owner_rail, OwnerRail::Main);
    assert_eq!(d.prior_context_tokens, 1000);
    assert_eq!(d.current_context_tokens, 12_000);
    assert_eq!(d.delta_tokens, 11_000);
    assert_eq!(d.intervening.len(), 1);
    match &d.intervening[0] {
        InterveningStep::ToolResult {
            tool_name,
            approx_bytes,
            approx_tokens,
            truncated,
            ..
        } => {
            assert_eq!(tool_name, "Bash");
            assert_eq!(*approx_bytes, 40_000);
            assert_eq!(*approx_tokens, 10_000);
            assert!(!*truncated);
        }
        other => panic!("expected ToolResult step, got {other:?}"),
    }
    assert!(d.intervening[0].driver_label().contains("Bash"));
    assert_eq!(d.model, "sonnet-4-6");
}

#[test]
fn compaction_replaces_negative_delta() {
    let mut inf1 = make_inf("req-1", 50_000, 0, 0);
    inf1.start_ms = 1_776_643_201_000;
    inf1.end_ms = 1_776_643_202_000;
    let mut inf2 = make_inf("req-2", 8_000, 0, 0);
    inf2.start_ms = 1_776_643_204_000;
    inf2.end_ms = 1_776_643_205_000;
    let compaction = CompactionEvent {
        session_id: "sess-1".to_string(),
        ts: "2026-04-20T00:00:03.000Z".to_string(),
        preceding_message_id: Some("msg-1".to_string()),
        tokens_before_compact: Some(50_000),
    };
    let rows = deltas(&[turn_of(vec![inf1, inf2])], &[compaction], &no_floor());
    assert_eq!(rows.len(), 1);
    assert_eq!(rows[0].delta_tokens, 0, "compaction clamps to 0");
    let freed = rows[0].intervening.iter().any(
        |s| matches!(s, InterveningStep::Compaction { tokens_freed } if *tokens_freed == 42_000),
    );
    assert!(freed, "got {:?}", rows[0].intervening);
}

fn with_subagent(sub: Vec<SpanNode>) -> TurnSpanTree {
    let mut main_inf1 = make_inf("req-main-1", 1000, 0, 0);
    let mut task_use = make_tool_use("Task", "tu-task");
    let mut sub_node = SpanNode::new(SpanKind::Subagent, "general-purpose");
    sub_node.set_attr("agent_id", AttrValue::str("agent-a"));
    sub_node.children.extend(sub);
    task_use.children.push(sub_node);
    main_inf1.children.push(task_use);
    turn_of(vec![main_inf1, make_inf("req-main-2", 3000, 0, 0)])
}

#[test]
fn subagent_isolation_main_rail_excludes_subagent_results() {
    let mut sub_inf1 = make_inf("req-sub-1", 2000, 0, 0);
    let mut sub_bash = make_tool_use("Bash", "tu-sub-bash");
    sub_bash.children.push(make_tool_result("tu-sub-bash", 40_000, false));
    sub_inf1.children.push(sub_bash);
    let tree = with_subagent(vec![sub_inf1, make_inf("req-sub-2", 12_000, 0, 0)]);
    let rows = deltas(&[tree], &[], &no_floor());
    let main = rows
        .iter()
        .find(|d| d.owner_rail == OwnerRail::Main)
        .expect("main-rail delta missing");
    let sub = rows
        .iter()
        .find(
            |d| matches!(&d.owner_rail, OwnerRail::Subagent { agent_id } if agent_id == "agent-a"),
        )
        .expect("subagent-rail delta missing");
    let sees = |d: &ContextDelta| {
        d.intervening.iter().any(|s| match s {
            InterveningStep::ToolResult { tool_use_id, .. } => tool_use_id == "tu-sub-bash",
            _ => false,
        })
    };
    assert!(!sees(main), "main rail must not see the subagent's tool_result");
    assert!(sees(sub), "subagent rail must see its own Bash tool_result");
}

#[test]
fn single_inference_yields_no_delta() {
    let tree = turn_of(vec![make_inf("req-1", 1000, 0, 0)]);
    assert!(deltas(&[tree], &[], &ContextDeltaOpts::default()).is_empty());
}

fn two_infs(a: i64, b: i64) -> TurnSpanTree {
    turn_of(vec![make_inf("req-1", a, 0, 0), make_inf("req-2", b, 0, 0)])
}

#[test]
fn min_delta_filters_small_jumps() {
    let rows = deltas(&[two_infs(1000, 1500)], &[], &ContextDeltaOpts::default());
    assert!(rows.is_empty(), "500 token jump must be filtered");
    let opts = ContextDeltaOpts {
        min_delta: Some(100),
        ..ContextDeltaOpts::default()
    };
    let rows = deltas(&[two_infs(1000, 1500)], &[], &opts);
    assert_eq!(rows.len(), 1);
    assert_eq!(rows[0].delta_tokens, 500);
}

#[test]
fn top_caps_output() {
    let steps = [1000, 6000, 11_000, 16_000, 21_000];
    let infs = steps
        .iter()
        .enumerate()
        .map(|(i, c)| make_inf(&format!("req-{i}"), *c, 0, 0))
        .collect();
    let trees = [turn_of(infs)];
    assert_eq!(deltas(&trees, &[], &no_floor()).len(), 4);
    let opts = ContextDeltaOpts {
        min_delta: Some(0),
        top: Some(2),
        ..ContextDeltaOpts::default()
    };
    assert_eq!(deltas(&trees, &[], &opts).len(), 2);
}

#[test]
fn owner_filter_main_excludes_subagent_rail() {
    let sub = vec![make_inf("req-sub-1", 2000, 0, 0), make_inf("req-sub-2", 22_000, 0, 0)];
    let opts = ContextDeltaOpts {
        min_delta: Some(0),
        owner: OwnerFilter::Main,
        ..ContextDeltaOpts::default()
    };
    let rows = deltas(&[with_subagent(sub)], &[], &opts);
    for d in &rows {
        assert_eq!(d.owner_rail, OwnerRail::Main);
    }
    assert!(!rows.is_empty(), "expected at least one main-rail delta");
}

#[test]
fn owner_filter_subagent_excludes_main_rail() {
    let sub = vec![make_inf("req-sub-1", 2000, 0, 0), make_inf("req-sub-2", 22_000, 0, 0)];
    let opts = ContextDeltaOpts {
        min_delta: Some(0),
        owner: OwnerFilter::Subagent,
        ..ContextDeltaOpts::default()
    };
    let rows = deltas(&[with_subagent(sub)], &[], &opts);
    assert_eq!(rows.len(), 1);
    assert_eq!(rows[0].delta_tokens, 20_000);
}

#[test]
fn rows_come_with_the_largest_first() {
    let infs = vec![
        make_inf("a", 1000, 0, 0),
        make_inf("b", 3000, 0, 0),
        make_inf("c", 9000, 0, 0),
        make_inf("d", 10_000, 0, 0),
    ];
    let rows = deltas(&[turn_of(infs)], &[], &no_floor());
    let sizes: Vec<i64> = rows.iter().map(|d| d.delta_tokens).collect();
    assert_eq!(sizes, vec![6000, 2000, 1000]);
}

#[test]
fn defaults_apply_where_nothing_is_asked_for() {
    let opts = ContextDeltaOpts::default();
    assert_eq!(opts.effective_top(), 20);
    assert_eq!(opts.effective_min_delta(), 1000);
    assert_eq!(opts.effective_since(), Duration::from_secs(24 * 3600));
    let asked = ContextDeltaOpts {
        since: Some(Duration::from_secs(60)),
        ..ContextDeltaOpts::default()
    };
    assert_eq!(asked.effective_since(), Duration::from_secs(60));
}

#[test]
fn steps_know_their_size() {
    let step = InterveningStep::SystemReminder {
        source: ReminderSource::Other,
        approx_tokens: 250,
    };
    assert_eq!(step.approx_tokens(), 250);
    assert_eq!(InterveningStep::Other.approx_tokens(), 0);
}
