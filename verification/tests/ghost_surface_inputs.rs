use relayburn_analyze::ghost_surface::{ClaudeSurface, CodexSurface};
use relayburn_analyze::ghost_surface_inputs::{
    build_ghost_surface_inputs, build_observed_names_by_source, build_session_count_by_source,
    pick_representative_model,
};
use relayburn_analyze::hotspots::BySession;
use relayburn_analyze::names::BySource;
use relayburn_analyze::records::{SourceKind, Subagent, ToolCall, TurnRecord, Usage};
use vstd::hash_map::StringHashMap;

fn make_turn(
    source: SourceKind,
    session_id: &str,
    model: &str,
    tool_calls: Vec<ToolCall>,
    subagent: Option<Subagent>,
) -> TurnRecord {
    TurnRecord {
        source,
        session_id: session_id.to_string(),
        message_id: format!("msg-{session_id}"),
        turn_index: 0,
        ts: "2026-04-20T00:00:00.000Z".to_string(),
        model: model.to_string(),
        project: None,
        project_key: None,
        usage: Usage {
            input: 0,
            output: 0,
            reasoning: 0,
            cache_read: 0,
            cache_create_5m: 0,
            cache_create_1h: 0,
        },
        tool_calls,
        edit_retries: 0,
        subagent,
        activity: None,
        retries: None,
        has_edits: None,
        fidelity: None,
    }
}

fn tool_call(name: &str, skill: Option<&str>) -> ToolCall {
    ToolCall {
        id: "id".to_string(),
        name: name.to_string(),
        common_name: name.to_string(),
        target: None,
        args_hash: "h".to_string(),
        is_error: None,
        edit_pre_hash: None,
        edit_post_hash: None,
        skill_name: skill.map(|s| s.to_string()),
    }
}

fn subagent(kind: &str) -> Subagent {
    Subagent {
        is_sidechain: true,
        parent_tool_use_id: None,
        agent_id: None,
        parent_agent_id: None,
        subagent_type: Some(kind.to_string()),
        description: None,
    }
}

#[test]
fn observed_names_unions_calls_skills_and_subagents() {
    let turns = vec![
        make_turn(
            SourceKind::ClaudeCode,
            "s1",
            "sonnet-4-6",
            vec![tool_call("Read", None), tool_call("Skill", Some("init"))],
            Some(subagent("code-critic")),
        ),
        make_turn(
            SourceKind::Codex,
            "s2",
            "gpt",
            vec![tool_call("read_file", None)],
            None,
        ),
    ];
    let observed = build_observed_names_by_source(&turns);
    let claude = observed.get(&SourceKind::ClaudeCode).unwrap();
    assert!(claude.contains("Read"));
    assert!(claude.contains("Skill"));
    assert!(claude.contains("init"));
    assert!(claude.contains("code-critic"));
    assert!(!claude.contains("read_file"));
    let codex = observed.get(&SourceKind::Codex).unwrap();
    assert!(codex.contains("read_file"));
    assert!(observed.get(&SourceKind::Opencode).is_none());
}

#[test]
fn session_count_dedups_by_session_id() {
    let turns = vec![
        make_turn(SourceKind::ClaudeCode, "s1", "m", vec![], None),
        make_turn(SourceKind::ClaudeCode, "s1", "m", vec![], None),
        make_turn(SourceKind::ClaudeCode, "s2", "m", vec![], None),
        make_turn(SourceKind::Codex, "s3", "m", vec![], None),
    ];
    let counts = build_session_count_by_source(&turns);
    assert_eq!(counts.get(&SourceKind::ClaudeCode).copied(), Some(2));
    assert_eq!(counts.get(&SourceKind::Codex).copied(), Some(1));
}

fn rate(turns: &[TurnRecord], cache_read: &[(&str, f64)]) -> f64 {
    let mut prices: StringHashMap<usize> = StringHashMap::new();
    for (i, (m, _)) in cache_read.iter().enumerate() {
        prices.insert(m.to_string(), i);
    }
    match pick_representative_model(turns, &prices) {
        Some(m) => cache_read.iter().find(|(n, _)| *n == m).unwrap().1 / 1_000_000.0,
        None => 0.0,
    }
}

#[test]
fn picks_cache_read_rate_of_most_used_priced_model() {
    let turn = |id: &str, m: &str| make_turn(SourceKind::ClaudeCode, id, m, vec![], None);
    let turns = vec![
        turn("s1", "sonnet-4-6"),
        turn("s1", "sonnet-4-6"),
        turn("s2", "opus-4-1"),
    ];
    let r = rate(&turns, &[("sonnet-4-6", 0.3), ("opus-4-1", 1.5)]);
    assert!((r - 0.3 / 1_000_000.0).abs() < 1e-15);
}

#[test]
fn of_models_used_as_often_the_first_seen_is_picked() {
    let turn = |m: &str| make_turn(SourceKind::Codex, "s", m, vec![], None);
    let turns = vec![turn("x"), turn("b"), turn("a"), turn("x")];
    let r = rate(&turns, &[("a", 1.0), ("b", 2.0)]);
    assert!((r - 2.0 / 1_000_000.0).abs() < 1e-15);
}

#[test]
fn picks_zero_when_no_priced_model() {
    let turns = vec![make_turn(SourceKind::Codex, "s1", "unknown", vec![], None)];
    assert_eq!(rate(&turns, &[]), 0.0);
}

fn no_files() -> (ClaudeSurface, CodexSurface) {
    let claude = ClaudeSurface {
        agents: vec![],
        skills: vec![],
        commands: vec![],
    };
    let codex = CodexSurface {
        prompts: vec![],
        skills: vec![],
        rules: vec![],
        memories: vec![],
    };
    (claude, codex)
}

#[test]
fn build_inputs_drops_empty_user_turn_text() {
    let (claude, codex) = no_files();
    let inputs = build_ghost_surface_inputs(&[], claude, codex, vec![], Some(BySource::new()));
    assert!(inputs.user_turn_text_by_session.is_none());
}

#[test]
fn build_inputs_keeps_user_turn_text() {
    let mut text: BySource<Vec<BySession<String>>> = BySource::new();
    text.set(SourceKind::Codex, vec![]);
    let (claude, codex) = no_files();
    let turns = vec![make_turn(SourceKind::Codex, "s", "m", vec![tool_call("a", None)], None)];
    let inputs = build_ghost_surface_inputs(&turns, claude, codex, vec![], Some(text));
    assert!(inputs.user_turn_text_by_session.is_some());
    assert!(inputs.observed_names_by_source.get(&SourceKind::Codex).unwrap().contains("a"));
    assert_eq!(inputs.session_count_by_source.get(&SourceKind::Codex), Some(&1));
}
