use relayburn_analyze::findings::PatternEventSource;
use relayburn_analyze::hotspots::BySession;
use relayburn_analyze::patterns::{
    detect_patterns, rank_summaries, DetectPatternsOptions, PatternKind, PatternsResult,
    SessionPatternSummary,
};
use relayburn_analyze::records::{
    CompactionEvent, ContentKind, ContentRecord, ContentToolResult, ContentToolUse, InputField,
    SourceKind, ToolCall, ToolResultEventRecord, ToolResultEventSource, ToolResultStatus,
    TurnRecord, Usage, UserTurnBlock, UserTurnBlockKind, UserTurnRecord,
};
use relayburn_analyze::shell::shell_command_has_file_read;
use relayburn_analyze::streaks::extract_error_signature;

fn usage(input: u64, output: u64, cache_read: u64, cache_create_5m: u64) -> Usage {
    Usage {
        input,
        output,
        reasoning: 0,
        cache_read,
        cache_create_5m,
        cache_create_1h: 0,
    }
}

fn common_name(name: &str) -> &str {
    match name {
        "edit" | "apply_patch" => "Edit",
        "read_file" => "Read",
        "shell" | "exec_command" => "Bash",
        other => other,
    }
}

fn tc_(id: &str, name: &str, args_hash: &str) -> ToolCall {
    ToolCall {
        id: id.to_string(),
        name: name.to_string(),
        common_name: common_name(name).to_string(),
        target: None,
        args_hash: args_hash.to_string(),
        is_error: None,
        edit_pre_hash: None,
        edit_post_hash: None,
        skill_name: None,
    }
}

fn tc_err(id: &str, name: &str, args_hash: &str) -> ToolCall {
    let mut c = tc_(id, name, args_hash);
    c.is_error = Some(true);
    c
}

fn tc_target(id: &str, name: &str, args_hash: &str, target: &str) -> ToolCall {
    let mut c = tc_(id, name, args_hash);
    c.target = Some(target.to_string());
    c
}

fn tc_edit(id: &str, args_hash: &str, target: &str, pre: &str, post: &str) -> ToolCall {
    let mut c = tc_target(id, "Edit", args_hash, target);
    c.edit_pre_hash = Some(pre.to_string());
    c.edit_post_hash = Some(post.to_string());
    c
}

fn tc_skill(id: &str, args_hash: &str, skill_name: &str) -> ToolCall {
    let mut c = tc_(id, "skill", args_hash);
    c.skill_name = Some(skill_name.to_string());
    c
}

fn turn(session_id: &str, message_id: &str, turn_index: u64, calls: Vec<ToolCall>) -> TurnRecord {
    TurnRecord {
        source: SourceKind::ClaudeCode,
        session_id: session_id.to_string(),
        message_id: message_id.to_string(),
        turn_index,
        ts: "2026-04-20T00:00:00.000Z".to_string(),
        model: "sonnet-4-6".to_string(),
        project: None,
        project_key: None,
        usage: usage(10, 5, 100, 50),
        tool_calls: calls,
        edit_retries: 0,
        subagent: None,
        activity: None,
        retries: None,
        has_edits: None,
        fidelity: None,
    }
}

fn turn_of(i: u64, source: SourceKind, usage: Usage, calls: Vec<ToolCall>) -> TurnRecord {
    let mut t = turn("s", &format!("m{}", i + 1), i, calls);
    t.source = source;
    t.usage = usage;
    t
}

fn each(calls: Vec<ToolCall>) -> Vec<TurnRecord> {
    calls
        .into_iter()
        .enumerate()
        .map(|(i, c)| turn("s", &format!("m{i}"), i as u64, vec![c]))
        .collect()
}

fn evt(session_id: &str, id: &str, event_index: u64, status: ToolResultStatus) -> ToolResultEventRecord {
    ToolResultEventRecord {
        session_id: session_id.to_string(),
        message_id: None,
        tool_use_id: id.to_string(),
        call_index: None,
        event_index,
        ts: None,
        status,
        event_source: ToolResultEventSource::ToolResult,
        output_bytes: None,
        output_truncated: None,
    }
}

fn users(approx_tokens: u64) -> Vec<BySession<UserTurnRecord>> {
    vec![BySession {
        session_id: "s".to_string(),
        records: vec![UserTurnRecord {
            session_id: "s".to_string(),
            user_uuid: "u1".to_string(),
            ts: "2026-04-20T00:00:00.000Z".to_string(),
            preceding_message_id: None,
            following_message_id: Some("m1".to_string()),
            blocks: vec![UserTurnBlock {
                kind: UserTurnBlockKind::Text,
                tool_use_id: None,
                byte_len: 800,
                approx_tokens,
                is_error: None,
            }],
        }],
    }]
}

fn result_record(message_id: &str, tool_use_id: &str, text: &str) -> ContentRecord {
    ContentRecord {
        session_id: "s".to_string(),
        message_id: message_id.to_string(),
        kind: ContentKind::ToolResult,
        text: None,
        tool_use: None,
        tool_result: Some(ContentToolResult {
            tool_use_id: tool_use_id.to_string(),
            content: text.to_string(),
            is_error: Some(true),
        }),
    }
}

fn edit_record(message_id: &str, id: &str, old: &str, new: &str) -> ContentRecord {
    let field = |name: &str, text: &str| InputField {
        name: name.to_string(),
        text: Some(text.to_string()),
    };
    ContentRecord {
        session_id: "s".to_string(),
        message_id: message_id.to_string(),
        kind: ContentKind::ToolUse,
        text: None,
        tool_use: Some(ContentToolUse {
            id: id.to_string(),
            name: "Edit".to_string(),
            input: vec![
                field("old_string", old),
                field("new_string", new),
                field("file_path", "/f.ts"),
            ],
        }),
        tool_result: None,
    }
}

fn content(records: Vec<ContentRecord>) -> Vec<BySession<ContentRecord>> {
    vec![BySession {
        session_id: "s".to_string(),
        records,
    }]
}

fn compaction(ts: &str, preceding: &str, tokens: u64) -> CompactionEvent {
    CompactionEvent {
        session_id: "s".to_string(),
        ts: ts.to_string(),
        preceding_message_id: Some(preceding.to_string()),
        tokens_before_compact: Some(tokens),
    }
}

const NOTHING: DetectPatternsOptions<'static> = DetectPatternsOptions {
    compactions: &[],
    user_turns_by_session: &[],
    content_by_session: &[],
    tool_result_events: &[],
};

fn plain(turns: &[TurnRecord]) -> PatternsResult {
    detect_patterns(turns, &NOTHING)
}

fn with_content(turns: &[TurnRecord], records: Vec<ContentRecord>) -> PatternsResult {
    let c = content(records);
    detect_patterns(
        turns,
        &DetectPatternsOptions {
            content_by_session: &c,
            ..NOTHING
        },
    )
}

fn with_events(turns: &[TurnRecord], events: &[ToolResultEventRecord]) -> PatternsResult {
    detect_patterns(
        turns,
        &DetectPatternsOptions {
            tool_result_events: events,
            ..NOTHING
        },
    )
}

fn with_users(turns: &[TurnRecord], approx_tokens: u64) -> PatternsResult {
    let u = users(approx_tokens);
    detect_patterns(
        turns,
        &DetectPatternsOptions {
            user_turns_by_session: &u,
            ..NOTHING
        },
    )
}

fn summary<'a>(r: &'a PatternsResult, session: &str) -> &'a SessionPatternSummary {
    r.session_summaries
        .iter()
        .find(|s| s.session_id == session)
        .expect("summary present")
}

fn errored_bash_turns(n: u64) -> Vec<TurnRecord> {
    each((0..n).map(|i| tc_err(&format!("u{i}"), "Bash", "abc")).collect())
}

#[test]
fn reports_one_retry_loop_of_length_4_for_4_consecutive_identical_failing_bash_calls() {
    let r = plain(&errored_bash_turns(4));
    assert_eq!(r.retry_loops.len(), 1);
    let l = &r.retry_loops[0];
    assert_eq!(l.tool, "Bash");
    assert_eq!(l.attempts, 4);
    assert_eq!(l.start_turn_index, 0);
    assert_eq!(l.end_turn_index, 3);
    assert_eq!(l.cost_turns, vec![0, 1, 2, 3]);
}

#[test]
fn reports_same_retry_loop_from_event_chronology_and_annotates_event_source() {
    let turns = errored_bash_turns(4);
    let events: Vec<ToolResultEventRecord> = (0..4)
        .map(|i| evt("s", &format!("u{i}"), i, ToolResultStatus::Errored))
        .collect();
    let legacy = plain(&turns);
    let graph = with_events(&turns, &events);
    assert_eq!(graph.retry_loops.len(), 1);
    assert_eq!(graph.failure_runs.len(), 0);
    let (g, l) = (&graph.retry_loops[0], &legacy.retry_loops[0]);
    assert_eq!(g.event_source, Some(PatternEventSource::ToolResult));
    assert_eq!(g.tool, l.tool);
    assert_eq!(g.attempts, l.attempts);
    assert_eq!(g.start_turn_index, l.start_turn_index);
    assert_eq!(g.end_turn_index, l.end_turn_index);
    assert_eq!(g.args_hash, l.args_hash);
    assert_eq!(g.cost_turns, l.cost_turns);
}

#[test]
fn does_not_trigger_on_2_consecutive_failures() {
    assert_eq!(plain(&errored_bash_turns(2)).retry_loops.len(), 0);
}

#[test]
fn resets_streak_when_intervening_non_errored_call_breaks_it() {
    let turns = each(vec![
        tc_err("u1", "Bash", "abc"),
        tc_err("u2", "Bash", "abc"),
        tc_("u3", "Bash", "abc"),
        tc_err("u4", "Bash", "abc"),
        tc_err("u5", "Bash", "abc"),
    ]);
    assert_eq!(plain(&turns).retry_loops.len(), 0);
}

#[test]
fn mixes_graph_backed_with_legacy_fallback_sessions() {
    let mut turns = Vec::new();
    for i in 0..3u64 {
        let id = format!("g{i}");
        turns.push(turn("graph", &id, i, vec![tc_(&id, "Bash", "same")]));
    }
    for i in 0..3u64 {
        let id = format!("f{i}");
        turns.push(turn("fallback", &id, i, vec![tc_err(&id, "Bash", "same")]));
    }
    let events: Vec<ToolResultEventRecord> = (0..3)
        .map(|i| evt("graph", &format!("g{i}"), i, ToolResultStatus::Errored))
        .collect();
    let r = with_events(&turns, &events);
    assert_eq!(r.retry_loops.len(), 2);
    let source = |id: &str| {
        r.retry_loops
            .iter()
            .find(|l| l.session_id == id)
            .unwrap()
            .event_source
    };
    assert_eq!(source("graph"), Some(PatternEventSource::ToolResult));
    assert_eq!(source("fallback"), None);
}

fn three_distinct_failure_turns() -> Vec<TurnRecord> {
    each(vec![tc_err("u0", "Bash", "a"), tc_err("u1", "Read", "b"), tc_err("u2", "Grep", "c")])
}

#[test]
fn reports_3_distinct_failing_tools_in_sequence_as_one_failure_run() {
    let r = plain(&three_distinct_failure_turns());
    assert_eq!(r.failure_runs.len(), 1);
    assert_eq!(r.failure_runs[0].length, 3);
    let mut tools = r.failure_runs[0].tools_involved.clone();
    tools.sort();
    assert_eq!(tools, vec!["Bash", "Grep", "Read"]);
}

#[test]
fn does_not_trigger_when_mixed_success_failure_breaks_streak() {
    let r = plain(&each(vec![
        tc_err("u1", "Bash", "a"),
        tc_("u2", "Read", "b"),
        tc_err("u3", "Grep", "c"),
        tc_err("u4", "Glob", "d"),
    ]));
    assert_eq!(r.failure_runs.len(), 0);
    assert_eq!(r.retry_loops.len(), 0);
}

#[test]
fn does_not_double_report_a_retry_loop_as_a_failure_run() {
    let r = plain(&errored_bash_turns(4));
    assert_eq!(r.retry_loops.len(), 1, "retry loop reported");
    assert_eq!(r.failure_runs.len(), 0, "same-key streak is not a failure run");
}

#[test]
fn counts_chained_subagent_notification_errors() {
    let turns = each(vec![
        tc_target("a1", "Agent", "agent:one", "agent-a"),
        tc_target("a2", "Agent", "agent:two", "agent-b"),
        tc_target("a3", "Agent", "agent:three", "agent-c"),
    ]);
    let events: Vec<ToolResultEventRecord> = ["a1", "a2", "a3"]
        .iter()
        .enumerate()
        .map(|(i, id)| {
            let mut e = evt("s", id, i as u64, ToolResultStatus::Errored);
            e.event_source = ToolResultEventSource::SubagentNotification;
            e
        })
        .collect();
    let r = with_events(&turns, &events);
    assert_eq!(r.failure_runs.len(), 1);
    assert_eq!(r.failure_runs[0].length, 3);
    assert_eq!(
        r.failure_runs[0].event_source,
        Some(PatternEventSource::SubagentNotification)
    );
}

#[test]
fn keeps_cancellations_out_of_retry_failure_detectors() {
    let turns = each(vec![
        tc_err("c1", "Bash", "same"),
        tc_err("c2", "Bash", "same"),
        tc_err("c3", "Bash", "same"),
    ]);
    let events: Vec<ToolResultEventRecord> = ["c1", "c2", "c3"]
        .iter()
        .enumerate()
        .map(|(i, id)| evt("s", id, i as u64, ToolResultStatus::Cancelled))
        .collect();
    let r = with_events(&turns, &events);
    assert_eq!(r.retry_loops.len(), 0);
    assert_eq!(r.failure_runs.len(), 0);
    assert_eq!(r.cancelled_runs.len(), 1);
    assert_eq!(r.cancelled_runs[0].length, 3);
    assert_eq!(r.cancelled_runs[0].event_source, PatternEventSource::ToolResult);
}

#[test]
fn prices_compaction_against_preceding_turn_cache_read() {
    let turns = vec![turn("s", "msg_c_0", 0, vec![]), turn("s", "msg_c_1", 1, vec![])];
    let events = vec![compaction("2026-04-20T00:00:02.000Z", "msg_c_1", 9000)];
    let r = detect_patterns(
        &turns,
        &DetectPatternsOptions {
            compactions: &events,
            ..NOTHING
        },
    );
    assert_eq!(r.compactions.len(), 1);
    let c = &r.compactions[0];
    assert_eq!(c.tokens_before_compact, 9000);
    assert_eq!(c.preceding_message_id.as_deref(), Some("msg_c_1"));
    assert_eq!(c.priced_by, Some(1));
}

fn ab_ba_turns() -> Vec<TurnRecord> {
    each(vec![
        tc_edit("u0", "h0", "/f.ts", "A", "B"),
        tc_edit("u1", "h1", "/f.ts", "B", "A"),
    ])
}

#[test]
fn detects_two_edit_cycle_where_b_reverts_a() {
    let r = plain(&ab_ba_turns());
    assert_eq!(r.edit_reverts.len(), 1);
    let c = &r.edit_reverts[0];
    assert_eq!(c.file_path, "/f.ts");
    assert_eq!(c.first_edit_turn_index, 0);
    assert!(c.revert_turn_index > c.first_edit_turn_index);
    assert_eq!(c.span_turns, c.revert_turn_index - c.first_edit_turn_index);
}

#[test]
fn does_not_trigger_on_different_files() {
    let r = plain(&each(vec![
        tc_edit("u1", "h1", "/a.ts", "hashA", "hashB"),
        tc_edit("u2", "h2", "/b.ts", "hashB", "hashA"),
    ]));
    assert_eq!(r.edit_reverts.len(), 0);
}

#[test]
fn detects_a_to_c_reversion_through_b() {
    let r = plain(&each(vec![
        tc_edit("u1", "h1", "/f.ts", "A", "B"),
        tc_edit("u2", "h2", "/f.ts", "B", "C"),
        tc_edit("u3", "h3", "/f.ts", "C", "A"),
    ]));
    assert_eq!(r.edit_reverts.len(), 1);
    assert_eq!(r.edit_reverts[0].first_edit_turn_index, 0);
    assert_eq!(r.edit_reverts[0].revert_turn_index, 2);
}

#[test]
fn aggregates_counts_per_session() {
    let rename = |turns: Vec<TurnRecord>, id: &str| -> Vec<TurnRecord> {
        turns
            .into_iter()
            .map(|mut t| {
                t.session_id = id.to_string();
                t
            })
            .collect()
    };
    let mut turns = rename(errored_bash_turns(4), "retry-session");
    turns.extend(rename(ab_ba_turns(), "revert-session"));
    let mut event = compaction("2026-04-20T00:00:02.000Z", "msg_c_1", 9000);
    event.session_id = "compact-session".to_string();
    let r = detect_patterns(
        &turns,
        &DetectPatternsOptions {
            compactions: &[event],
            ..NOTHING
        },
    );
    let retry = summary(&r, "retry-session");
    assert_eq!(retry.retry_loop_count, 1);
    assert_eq!(retry.total_retries, 4);
    assert_eq!(retry.priced[0].kind, PatternKind::RetryLoop);
    assert_eq!(summary(&r, "revert-session").edit_revert_count, 1);
    assert_eq!(summary(&r, "compact-session").compaction_count, 1);
}

#[test]
fn returns_empty_results_when_no_turns_and_no_events() {
    let r = plain(&[]);
    assert!(r.retry_loops.is_empty());
    assert!(r.failure_runs.is_empty());
    assert!(r.cancelled_runs.is_empty());
    assert!(r.compactions.is_empty());
    assert!(r.edit_reverts.is_empty());
    assert!(r.session_summaries.is_empty());
}

fn skill_turns(skills: &[&str], source: SourceKind) -> Vec<TurnRecord> {
    skills
        .iter()
        .enumerate()
        .map(|(i, s)| {
            let c = tc_skill(&format!("u{i}"), &format!("h{i}"), s);
            turn_of(i as u64, source, usage(10, 5, 100, 50), vec![c])
        })
        .collect()
}

#[test]
fn detects_repeated_skill_calls_with_same_name_in_opencode() {
    let r = plain(&skill_turns(&["react-component"; 3], SourceKind::Opencode));
    assert_eq!(r.skill_recall_dups.len(), 1);
    let dup = &r.skill_recall_dups[0];
    assert_eq!(dup.skill_name, "react-component");
    assert_eq!(dup.call_count, 3);
    assert_eq!(dup.first_turn_index, 0);
    assert_eq!(dup.last_turn_index, 2);
}

#[test]
fn does_not_trigger_on_single_skill_call() {
    let r = plain(&skill_turns(&["react-component"], SourceKind::Opencode));
    assert_eq!(r.skill_recall_dups.len(), 0);
}

#[test]
fn patterns_tests_does_not_trigger_for_non_opencode_sessions() {
    let r = plain(&skill_turns(&["react-component"; 2], SourceKind::ClaudeCode));
    assert_eq!(r.skill_recall_dups.len(), 0);

    let other = SourceKind::ClaudeCode;
    let skill = vec![tc_skill("u1", "h1", "react-component")];
    let turns = vec![
        turn_of(0, other, usage(100, 50, 0, 200), skill),
        turn_of(1, other, usage(50, 30, 300, 0), vec![]),
    ];
    assert_eq!(plain(&turns).skill_pruning_protection.len(), 0);

    let turns = vec![turn_of(0, other, usage(5000, 200, 0, 5200), vec![])];
    assert_eq!(with_users(&turns, 200).system_prompt_taxes.len(), 0);
}

#[test]
fn groups_different_skill_names_separately() {
    let names = ["react-component", "react-component", "testing", "testing"];
    let r = plain(&skill_turns(&names, SourceKind::Opencode));
    assert_eq!(r.skill_recall_dups.len(), 2);
    for name in ["react-component", "testing"] {
        let d = r
            .skill_recall_dups
            .iter()
            .find(|d| d.skill_name == name)
            .unwrap();
        assert_eq!(d.call_count, 2);
    }
}

#[test]
fn detects_skill_content_riding_in_cache_after_invocation() {
    let o = SourceKind::Opencode;
    let skill = vec![tc_skill("u1", "h1", "react-component")];
    let r = plain(&[
        turn_of(0, o, usage(100, 50, 0, 200), skill),
        turn_of(1, o, usage(50, 30, 300, 0), vec![]),
        turn_of(2, o, usage(50, 30, 350, 0), vec![]),
    ]);
    assert_eq!(r.skill_pruning_protection.len(), 1);
    let ev = &r.skill_pruning_protection[0];
    assert_eq!(ev.skill_name, "react-component");
    assert_eq!(ev.invoked_turn_index, 0);
    assert_eq!(ev.riding_turns, 2);
    assert_eq!(ev.last_cached_turn_index, 2);
}

#[test]
fn does_not_emit_when_no_subsequent_cache_read_turns() {
    let o = SourceKind::Opencode;
    let skill = vec![tc_skill("u1", "h1", "react-component")];
    let r = plain(&[
        turn_of(0, o, usage(100, 50, 0, 200), skill),
        turn_of(1, o, usage(50, 30, 0, 0), vec![]),
    ]);
    assert_eq!(r.skill_pruning_protection.len(), 0);
}

#[test]
fn aggregates_skill_recall_dup_and_pruning_protection_counts() {
    let o = SourceKind::Opencode;
    let skill = |id: &str| vec![tc_skill(id, id, "react-component")];
    let r = plain(&[
        turn_of(0, o, usage(100, 50, 0, 200), skill("u1")),
        turn_of(1, o, usage(100, 50, 0, 200), skill("u2")),
        turn_of(2, o, usage(50, 30, 300, 0), vec![]),
    ]);
    let s = summary(&r, "s");
    assert_eq!(s.skill_recall_dup_count, 1);
    assert_eq!(s.skill_pruning_protection_count, 2);
}

#[test]
fn estimates_system_prompt_size_from_first_cache_create_minus_first_user_message() {
    let o = SourceKind::Opencode;
    let turns = [
        turn_of(0, o, usage(5000, 200, 0, 5200), vec![]),
        turn_of(1, o, usage(100, 50, 5200, 0), vec![]),
    ];
    let r = with_users(&turns, 200);
    assert_eq!(r.system_prompt_taxes.len(), 1);
    let tax = &r.system_prompt_taxes[0];
    assert_eq!(tax.first_turn_cache_create, 5200);
    assert_eq!(tax.first_user_message_tokens, 200);
    assert_eq!(tax.estimated_system_prompt_tokens, 5000);
    assert_eq!(tax.riding_turns, 1);
}

#[test]
fn does_not_emit_when_user_turn_data_unavailable() {
    let r = plain(&[turn_of(0, SourceKind::Opencode, usage(5000, 200, 0, 5200), vec![])]);
    assert_eq!(r.system_prompt_taxes.len(), 0);
}

#[test]
fn excludes_first_turn_from_riding_turns_even_when_cache_read_nonzero() {
    let o = SourceKind::Opencode;
    let turns = [
        turn_of(0, o, usage(5000, 200, 4000, 5200), vec![]),
        turn_of(1, o, usage(100, 50, 5200, 0), vec![]),
    ];
    let r = with_users(&turns, 200);
    assert_eq!(r.system_prompt_taxes.len(), 1);
    assert_eq!(r.system_prompt_taxes[0].riding_turns, 1);
}

#[test]
fn does_not_emit_when_first_cache_create_is_zero() {
    let turns = [turn_of(0, SourceKind::Opencode, usage(200, 100, 0, 0), vec![])];
    assert_eq!(with_users(&turns, 200).system_prompt_taxes.len(), 0);
}

fn edit_heavy_turns(source: SourceKind, edit_tool: &str, n: u64) -> Vec<TurnRecord> {
    (0..n)
        .map(|i| {
            let target = format!("/src/file{i}.ts");
            let c = tc_target(&format!("u{i}"), edit_tool, &format!("h{i}"), &target);
            let mut t = turn("s", &format!("m{i}"), i, vec![c]);
            t.source = source;
            t
        })
        .collect()
}

fn then(mut turns: Vec<TurnRecord>, calls: Vec<ToolCall>) -> Vec<TurnRecord> {
    let source = turns[0].source;
    for c in calls {
        let i = turns.len() as u64;
        let mut t = turn("s", &format!("x{i}"), i, vec![c]);
        t.source = source;
        turns.push(t);
    }
    turns
}

#[test]
fn flags_claude_session_with_6_edits_and_0_reads() {
    let r = plain(&edit_heavy_turns(SourceKind::ClaudeCode, "Edit", 6));
    assert_eq!(r.edit_heavy_sessions.len(), 1);
    let h = &r.edit_heavy_sessions[0];
    assert_eq!(h.source, SourceKind::ClaudeCode);
    assert_eq!(h.edit_count, 6);
    assert_eq!(h.read_count, 0);
    assert_eq!(h.edit_count as f64 / h.read_count as f64, f64::INFINITY);
}

#[test]
fn flags_opencode_session_using_lowercase_tool_names() {
    let r = plain(&edit_heavy_turns(SourceKind::Opencode, "edit", 6));
    assert_eq!(r.edit_heavy_sessions.len(), 1);
    assert_eq!(r.edit_heavy_sessions[0].source, SourceKind::Opencode);
    assert_eq!(r.edit_heavy_sessions[0].edit_count, 6);
}

#[test]
fn flags_codex_session_using_apply_patch() {
    let r = plain(&edit_heavy_turns(SourceKind::Codex, "apply_patch", 6));
    assert_eq!(r.edit_heavy_sessions.len(), 1);
    assert_eq!(r.edit_heavy_sessions[0].source, SourceKind::Codex);
    assert_eq!(r.edit_heavy_sessions[0].edit_count, 6);
}

#[test]
fn does_not_flag_when_ratio_under_threshold() {
    let reads = ["a", "b", "c"]
        .iter()
        .map(|n| tc_target(n, "Read", n, &format!("/{n}.ts")))
        .collect();
    let r = plain(&then(edit_heavy_turns(SourceKind::ClaudeCode, "Edit", 6), reads));
    assert_eq!(r.edit_heavy_sessions.len(), 0);
}

#[test]
fn does_not_flag_below_min_edits() {
    let r = plain(&edit_heavy_turns(SourceKind::ClaudeCode, "Edit", 4));
    assert_eq!(r.edit_heavy_sessions.len(), 0);
}

#[test]
fn grep_glob_ls_bash_do_not_count_as_reads() {
    let calls = vec![
        tc_("g1", "Grep", "h-g1"),
        tc_("g2", "Glob", "h-g2"),
        tc_("g3", "LS", "h-g3"),
        tc_target("g4", "Bash", "h-g4", "cat /etc/hosts"),
    ];
    let r = plain(&then(edit_heavy_turns(SourceKind::ClaudeCode, "Edit", 6), calls));
    assert_eq!(r.edit_heavy_sessions.len(), 1);
    assert_eq!(r.edit_heavy_sessions[0].read_count, 0);
}

fn codex_after(calls: Vec<ToolCall>) -> PatternsResult {
    plain(&then(edit_heavy_turns(SourceKind::Codex, "apply_patch", 6), calls))
}

#[test]
fn counts_codex_shell_cat_head_tail_file_reads() {
    let r = codex_after(vec![
        tc_target("r1", "shell", "a", "cat package.json"),
        tc_target("r2", "exec_command", "b", "head -n 20 src/main.ts"),
    ]);
    assert_eq!(r.edit_heavy_sessions.len(), 0);
}

#[test]
fn reports_remaining_codex_edit_heavy_with_one_shell_file_read() {
    let r = codex_after(vec![tc_target("r1", "exec_command", "a", "tail -n 50 src/main.ts")]);
    assert_eq!(r.edit_heavy_sessions.len(), 1);
    let h = &r.edit_heavy_sessions[0];
    assert_eq!(h.read_count, 1);
    assert_eq!(h.edit_count as f64 / h.read_count as f64, 6.0);
}

#[test]
fn does_not_count_unrelated_codex_shell_commands_as_reads() {
    let r = codex_after(vec![
        tc_target("b1", "shell", "a", "git status"),
        tc_target("b2", "exec_command", "b", "git log --oneline | head -n 5"),
    ]);
    assert_eq!(r.edit_heavy_sessions.len(), 1);
    assert_eq!(r.edit_heavy_sessions[0].read_count, 0);
}

#[test]
fn codex_read_file_normalizes_to_read_and_brings_ratio_under_threshold() {
    let r = codex_after(vec![tc_("r1", "read_file", "a"), tc_("r2", "read_file", "b")]);
    assert_eq!(r.edit_heavy_sessions.len(), 0);
}

#[test]
fn reports_likely_retries_from_intra_turn_edit_bash_edit() {
    let turns: Vec<TurnRecord> = (0..5u64)
        .map(|i| {
            let f = format!("/f{i}.ts");
            let calls = vec![
                tc_target(&format!("e1-{i}"), "Edit", &format!("h{i}a"), &f),
                tc_target(&format!("b-{i}"), "Bash", &format!("bh{i}"), "pytest"),
                tc_target(&format!("e2-{i}"), "Edit", &format!("h{i}b"), &f),
            ];
            let mut t = turn("s", &format!("m{i}"), i, calls);
            t.edit_retries = 1;
            t
        })
        .collect();
    let r = plain(&turns);
    assert_eq!(r.edit_heavy_sessions.len(), 1);
    assert_eq!(r.edit_heavy_sessions[0].edit_count, 10);
    assert_eq!(r.edit_heavy_sessions[0].likely_retries, 5);
}

#[test]
fn aggregates_edit_heavy_count_into_session_summary() {
    let r = plain(&edit_heavy_turns(SourceKind::ClaudeCode, "Edit", 6));
    assert_eq!(summary(&r, "s").edit_heavy_count, 1);
}

#[test]
fn populates_when_all_attempts_share_a_leading_line() {
    let r = with_content(
        &errored_bash_turns(4),
        vec![
            result_record("m0", "u0", "npm ERR! code ENOENT\n  more details\n  more details"),
            result_record("m1", "u1", "npm ERR! code ENOENT\n  more details"),
            result_record("m2", "u2", "npm ERR! code ENOENT\n  trailing"),
            result_record("m3", "u3", "npm ERR! code ENOENT\n  yet again"),
        ],
    );
    assert_eq!(r.retry_loops.len(), 1);
    assert_eq!(r.retry_loops[0].error_signature.as_deref(), Some("npm ERR! code ENOENT"));
}

#[test]
fn marks_first_signature_with_diverged_when_attempts_differ() {
    let r = with_content(
        &errored_bash_turns(3),
        vec![
            result_record("m0", "u0", "npm ERR! code ENOENT"),
            result_record("m1", "u1", "npm ERR! code EACCES"),
            result_record("m2", "u2", "npm ERR! code ENOENT"),
        ],
    );
    assert_eq!(r.retry_loops.len(), 1);
    assert_eq!(
        r.retry_loops[0].error_signature.as_deref(),
        Some("npm ERR! code ENOENT (signatures diverged)")
    );
}

#[test]
fn omits_when_no_content_by_session_supplied() {
    let r = plain(&errored_bash_turns(3));
    assert_eq!(r.retry_loops.len(), 1);
    assert_eq!(r.retry_loops[0].error_signature, None);
}

#[test]
fn omits_when_content_has_no_matching_tool_results() {
    let records = vec![result_record("m99", "unrelated", "something else")];
    let r = with_content(&errored_bash_turns(3), records);
    assert_eq!(r.retry_loops.len(), 1);
    assert_eq!(r.retry_loops[0].error_signature, None);
}

#[test]
fn records_one_entry_per_distinct_tool_in_first_seen_order() {
    let r = with_content(
        &three_distinct_failure_turns(),
        vec![
            result_record("m0", "u0", "bash: command not found"),
            result_record("m1", "u1", "ENOENT: no such file or directory"),
            result_record("m2", "u2", "no matches found"),
        ],
    );
    assert_eq!(r.failure_runs.len(), 1);
    let sigs = r.failure_runs[0].error_signatures.as_ref().unwrap();
    assert_eq!(sigs.len(), 3);
    assert_eq!(sigs[0].tool, "Bash");
    assert_eq!(sigs[0].first_line, "bash: command not found");
    assert_eq!(sigs[1].tool, "Read");
    assert_eq!(sigs[1].first_line, "ENOENT: no such file or directory");
    assert_eq!(sigs[2].tool, "Grep");
    assert_eq!(sigs[2].first_line, "no matches found");
}

#[test]
fn omits_when_content_not_supplied() {
    let r = plain(&three_distinct_failure_turns());
    assert_eq!(r.failure_runs.len(), 1);
    assert_eq!(r.failure_runs[0].error_signatures, None);
}

fn at(mut t: TurnRecord, ts: &str) -> TurnRecord {
    t.ts = ts.to_string();
    t
}

fn lost(
    turns: &[TurnRecord],
    events: &[CompactionEvent],
    records: Vec<ContentRecord>,
) -> PatternsResult {
    let c = content(records);
    detect_patterns(
        turns,
        &DetectPatternsOptions {
            compactions: events,
            content_by_session: &c,
            ..NOTHING
        },
    )
}

#[test]
fn aggregates_files_and_tool_counts_in_compacted_window() {
    let t0 = vec![tc_edit("u0", "h0", "/src/foo.ts", "a", "b"), tc_("u1", "Bash", "h1")];
    let t1 = vec![
        tc_edit("u2", "h2", "/src/bar.ts", "c", "d"),
        tc_("u3", "Read", "h3"),
        tc_("u4", "Bash", "h4"),
    ];
    let turns = [
        at(turn("s", "m0", 0, t0), "2026-04-20T00:00:00.000Z"),
        at(turn("s", "m1", 1, t1), "2026-04-20T00:00:01.000Z"),
    ];
    let events = [compaction("2026-04-20T00:00:02.000Z", "m1", 9000)];
    let r = lost(&turns, &events, vec![result_record("m0", "u0", "present")]);
    assert_eq!(r.compactions.len(), 1);
    let lw = r.compactions[0].lost_work.as_ref().unwrap();
    assert_eq!(lw.files, vec!["/src/bar.ts", "/src/foo.ts"]);
    assert_eq!(lw.edit_count, 2);
    assert_eq!(lw.bash_count, 2);
    assert_eq!(lw.read_count, 1);
}

#[test]
fn windows_successive_boundaries() {
    let a = vec![tc_edit("u0", "h0", "/a.ts", "a", "b")];
    let b = vec![tc_edit("u1", "h1", "/b.ts", "c", "d")];
    let turns = [
        at(turn("s", "m0", 0, a), "2026-04-20T00:00:00.000Z"),
        at(turn("s", "m1", 1, b), "2026-04-20T00:00:02.000Z"),
    ];
    let events = [
        compaction("2026-04-20T00:00:01.000Z", "m0", 5000),
        compaction("2026-04-20T00:00:03.000Z", "m1", 7000),
    ];
    let r = lost(&turns, &events, vec![result_record("m0", "u0", "x")]);
    assert_eq!(r.compactions.len(), 2);
    assert_eq!(r.compactions[0].lost_work.as_ref().unwrap().files, vec!["/a.ts"]);
    assert_eq!(r.compactions[1].lost_work.as_ref().unwrap().files, vec!["/b.ts"]);
}

#[test]
fn omits_lost_work_when_no_content_by_session_supplied() {
    let calls = vec![tc_edit("u0", "h0", "/src/foo.ts", "a", "b")];
    let turns = [turn("s", "m0", 0, calls)];
    let r = detect_patterns(
        &turns,
        &DetectPatternsOptions {
            compactions: &[compaction("2026-04-20T00:00:01.000Z", "m0", 1000)],
            ..NOTHING
        },
    );
    assert_eq!(r.compactions.len(), 1);
    assert!(r.compactions[0].lost_work.is_none());
}

#[test]
fn populates_with_truncated_old_new_strings_from_both_anchors() {
    let records = vec![edit_record("m0", "u0", "foo", "bar"), edit_record("m1", "u1", "bar", "foo")];
    let r = with_content(&ab_ba_turns(), records);
    assert_eq!(r.edit_reverts.len(), 1);
    let p = r.edit_reverts[0].sample_preview.as_ref().unwrap();
    assert_eq!(p.first_edit.old, "foo");
    assert_eq!(p.first_edit.new, "bar");
    assert_eq!(p.revert.old, "bar");
    assert_eq!(p.revert.new, "foo");
}

#[test]
fn truncates_each_field_at_about_200_chars_with_ellipsis() {
    let long = "x".repeat(500);
    let records = vec![edit_record("m0", "u0", &long, &long), edit_record("m1", "u1", &long, &long)];
    let r = with_content(&ab_ba_turns(), records);
    let p = r.edit_reverts[0].sample_preview.as_ref().unwrap();
    assert!(p.first_edit.old.chars().count() <= 200);
    assert!(p.first_edit.new.chars().count() <= 200);
    assert!(p.first_edit.old.ends_with('…'));
}

#[test]
fn omits_sample_preview_when_no_content_by_session_supplied() {
    let r = plain(&ab_ba_turns());
    assert_eq!(r.edit_reverts.len(), 1);
    assert!(r.edit_reverts[0].sample_preview.is_none());
}

#[test]
fn omits_when_tool_use_entries_missing_from_content() {
    let r = with_content(&ab_ba_turns(), vec![result_record("m0", "u0", "irrelevant")]);
    assert_eq!(r.edit_reverts.len(), 1);
    assert!(r.edit_reverts[0].sample_preview.is_none());
}

#[test]
fn events_of_more_than_one_source_are_mixed() {
    let turns = errored_bash_turns(3);
    let mut events: Vec<ToolResultEventRecord> = (0..3)
        .map(|i| evt("s", &format!("u{i}"), i, ToolResultStatus::Errored))
        .collect();
    events[1].event_source = ToolResultEventSource::QueueEvent;
    let r = with_events(&turns, &events);
    assert_eq!(r.retry_loops[0].event_source, Some(PatternEventSource::Mixed));
}

#[test]
fn the_summaries_count_every_finding() {
    let mut turns = errored_bash_turns(3);
    turns.extend(then(edit_heavy_turns(SourceKind::ClaudeCode, "Edit", 6), vec![]));
    let r = plain(&turns);
    let loops: u64 = r.session_summaries.iter().map(|s| s.retry_loop_count).sum();
    let heavy: u64 = r.session_summaries.iter().map(|s| s.edit_heavy_count).sum();
    assert_eq!(loops as usize, r.retry_loops.len());
    assert_eq!(heavy as usize, r.edit_heavy_sessions.len());
}

#[test]
fn a_signature_is_the_first_line_that_says_something() {
    assert_eq!(extract_error_signature("\n  oops \nmore").as_deref(), Some("oops"));
    assert_eq!(extract_error_signature(" \n "), None);
    let long = "e".repeat(300);
    assert_eq!(extract_error_signature(&long).unwrap().chars().count(), 240);
}

#[test]
fn shell_commands_that_read_files() {
    assert!(shell_command_has_file_read("cat a.txt"));
    assert!(shell_command_has_file_read("cd x && tail -n 5 a.txt"));
    assert!(!shell_command_has_file_read("git log | head -n 5"));
    assert!(!shell_command_has_file_read(""));
}

#[test]
fn slices_without_a_common_session_have_their_own_patterns() {
    let in_session = |turns: Vec<TurnRecord>, session: &str| -> Vec<TurnRecord> {
        turns
            .into_iter()
            .map(|mut t| {
                t.session_id = session.to_string();
                t
            })
            .collect()
    };
    let mut a = in_session(errored_bash_turns(4), "a1");
    a.extend(in_session(ab_ba_turns(), "a2"));
    let mut b = in_session(three_distinct_failure_turns(), "b1");
    b.extend(in_session(errored_bash_turns(3), "b2"));
    b.extend(in_session(ab_ba_turns(), "b3"));
    let both: Vec<TurnRecord> = a.iter().chain(b.iter()).cloned().collect();
    let (ra, rb, r) = (plain(&a), plain(&b), plain(&both));
    let behind = |at: &[usize]| -> Vec<usize> { at.iter().map(|i| i + a.len()).collect() };
    assert_eq!((ra.retry_loops.len(), rb.retry_loops.len(), r.retry_loops.len()), (1, 1, 2));
    assert_eq!(r.retry_loops[0], ra.retry_loops[0]);
    assert_eq!(r.retry_loops[1].session_id, "b2");
    assert_eq!(r.retry_loops[1].cost_turns, behind(&rb.retry_loops[0].cost_turns));
    assert_eq!((ra.failure_runs.len(), rb.failure_runs.len(), r.failure_runs.len()), (0, 1, 1));
    assert_eq!(r.failure_runs[0].cost_turns, behind(&rb.failure_runs[0].cost_turns));
    assert_eq!((ra.edit_reverts.len(), rb.edit_reverts.len(), r.edit_reverts.len()), (1, 1, 2));
    assert_eq!(r.edit_reverts[0], ra.edit_reverts[0]);
    assert_eq!(r.edit_reverts[1].cost_turns, behind(&rb.edit_reverts[0].cost_turns));
}

#[test]
fn summaries_come_with_the_dearest_first_and_ties_as_they_were_seen() {
    let mut turns = Vec::new();
    for session in ["s-c", "s-b", "s-a"] {
        for mut t in errored_bash_turns(4) {
            t.session_id = session.to_string();
            turns.push(t);
        }
    }
    let found = plain(&turns).session_summaries;
    let ids = |v: &[SessionPatternSummary]| -> Vec<String> {
        v.iter().map(|s| s.session_id.clone()).collect()
    };
    assert_eq!(ids(&found), vec!["s-c", "s-b", "s-a"]);
    assert_eq!(ids(&rank_summaries(found.clone(), &[1, 2, 3])), vec!["s-a", "s-b", "s-c"]);
    assert_eq!(ids(&rank_summaries(found.clone(), &[1, 2, 1])), vec!["s-b", "s-c", "s-a"]);
    let again = rank_summaries(found.clone(), &[0, 0, 0]);
    assert!(again == found);
}
