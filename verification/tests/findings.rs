use relayburn_analyze::findings::{
    CancellationRun, CompactionLoss, EditHeavySession, EditRevertCycle, FailureRun,
    PatternEventSource, RetryLoop, SkillPruningProtection, SkillRecallDup, SystemPromptTax,
};
use relayburn_analyze::patterns::PatternsResult;
use relayburn_analyze::records::{SourceKind, SourceNames, ToolResultEventSource};
use relayburn_analyze::waste::{
    cancellation_run_to_finding, compaction_loss_to_finding, edit_heavy_to_finding,
    edit_revert_to_finding, failure_run_to_finding, findings_from_patterns, format_with_commas,
    retry_loop_to_finding, skill_pruning_protection_to_finding, skill_recall_dup_to_finding,
    sort_findings, system_prompt_tax_to_finding, Amount, PatternAmounts, WasteAction, WasteFinding,
    WasteSeverity,
};

const SESSION: &str = "11111111-2222-3333-4444-555555555555";

fn severity_from_usd(usd: f64) -> WasteSeverity {
    if usd >= 0.5 {
        WasteSeverity::High
    } else if usd >= 0.05 {
        WasteSeverity::Warn
    } else {
        WasteSeverity::Info
    }
}

fn amount(usd: f64) -> Amount {
    Amount {
        text: format!("${usd:.4}"),
        severity: severity_from_usd(usd),
        key: (usd * 1_000_000.0) as i64,
    }
}

fn names() -> SourceNames {
    SourceNames {
        claude: "harness".to_string(),
        codex: "codex".to_string(),
        opencode: "opencode".to_string(),
        anthropic_api: "anthropic-api".to_string(),
        openai_api: "openai-api".to_string(),
        gemini_api: "gemini-api".to_string(),
    }
}

fn base_retry_loop() -> RetryLoop {
    RetryLoop {
        session_id: SESSION.to_string(),
        tool: "Bash".to_string(),
        target: Some("pnpm test".to_string()),
        args_hash: "abc123".to_string(),
        attempts: 4,
        start_turn_index: 0,
        end_turn_index: 3,
        cost_turns: Vec::new(),
        error_signature: None,
        event_source: None,
    }
}

#[test]
fn retry_loop_to_finding_basic() {
    let f = retry_loop_to_finding(&base_retry_loop(), &amount(0.6));
    assert_eq!(f.kind, "retry-loop");
    assert_eq!(f.session_id, SESSION);
    assert_eq!(f.severity, WasteSeverity::High);
    assert!(f.title.contains("Bash pnpm test failed 4× in a row"), "title: {}", f.title);
    assert!(f.detail.contains("Turns 0-3"), "detail: {}", f.detail);
    assert_eq!(f.cost_key, amount(0.6).key);
    assert_eq!(f.actions.len(), 1);
    match &f.actions[0] {
        WasteAction::Command { text, .. } => {
            assert!(text.contains("burn hotspots --session"), "text: {text}");
        }
        other => panic!("expected Command action, got {other:?}"),
    }
}

#[test]
fn retry_loop_severity_thresholds() {
    let r = base_retry_loop();
    let severity = |usd: f64| retry_loop_to_finding(&r, &amount(usd)).severity;
    assert_eq!(severity(0.0001), WasteSeverity::Info);
    assert_eq!(severity(0.1), WasteSeverity::Warn);
    assert_eq!(severity(1.0), WasteSeverity::High);
}

#[test]
fn failure_run_to_finding_lists_tools() {
    let fr = FailureRun {
        session_id: SESSION.to_string(),
        length: 3,
        start_turn_index: 5,
        end_turn_index: 7,
        tools_involved: vec!["Bash".to_string(), "Read".to_string(), "Edit".to_string()],
        cost_turns: Vec::new(),
        error_signatures: None,
        event_source: None,
    };
    let f = failure_run_to_finding(&fr, &amount(0.08));
    assert_eq!(f.kind, "failure-run");
    assert_eq!(f.severity, WasteSeverity::Warn);
    assert!(f.detail.contains("Bash, Read, Edit"), "detail: {}", f.detail);
}

#[test]
fn cancellation_run_carries_its_event_source() {
    let c = CancellationRun {
        session_id: SESSION.to_string(),
        length: 3,
        start_turn_index: 1,
        end_turn_index: 2,
        tools_involved: vec!["Bash".to_string()],
        cost_turns: Vec::new(),
        event_source: PatternEventSource::QueueEvent,
    };
    let f = cancellation_run_to_finding(&c, &amount(0.01));
    assert_eq!(f.event_source, Some(PatternEventSource::QueueEvent));
    assert_eq!(f.severity, WasteSeverity::Info);
}

fn compaction(tokens: u64) -> CompactionLoss {
    CompactionLoss {
        session_id: SESSION.to_string(),
        ts: "2026-04-20T00:00:00.000Z".to_string(),
        preceding_message_id: Some("msg-1".to_string()),
        tokens_before_compact: tokens,
        priced_by: None,
        lost_work: None,
    }
}

#[test]
fn compaction_loss_exposes_tokens() {
    let f = compaction_loss_to_finding(&compaction(9000), &amount(0.04));
    assert_eq!(f.kind, "compaction-loss");
    assert_eq!(f.tokens_per_session, Some(9000));
    assert_eq!(f.cost_key, amount(0.04).key);
    assert_eq!(f.severity, WasteSeverity::Info);
}

#[test]
fn compaction_loss_omits_tokens_when_zero() {
    let mut c = compaction(0);
    c.preceding_message_id = None;
    let f = compaction_loss_to_finding(&c, &amount(0.0));
    assert_eq!(f.tokens_per_session, None);
}

fn revert(first: u64, last: u64) -> EditRevertCycle {
    EditRevertCycle {
        session_id: SESSION.to_string(),
        file_path: "src/foo.ts".to_string(),
        first_edit_turn_index: first,
        revert_turn_index: last,
        span_turns: last - first,
        cost_turns: Vec::new(),
        sample_preview: None,
    }
}

#[test]
fn edit_revert_to_finding_basic() {
    let f = edit_revert_to_finding(&revert(2, 8), &amount(0.72));
    assert_eq!(f.kind, "edit-revert");
    assert_eq!(f.severity, WasteSeverity::High);
    assert!(f.detail.contains("6 turns later"), "detail: {}", f.detail);
    assert!(f.title.contains("src/foo.ts"), "title: {}", f.title);
}

fn heavy(source: SourceKind, read_count: u64, edit_count: u64, likely_retries: u128) -> EditHeavySession {
    EditHeavySession {
        source,
        session_id: SESSION.to_string(),
        read_count,
        edit_count,
        likely_retries,
        cost_turns: Vec::new(),
    }
}

#[test]
fn edit_heavy_caps_severity_at_warn() {
    let s = heavy(SourceKind::ClaudeCode, 1, 12, 3);
    let f = edit_heavy_to_finding(&s, &names(), &amount(5.0), "12.0");
    assert_eq!(f.kind, "edit-heavy");
    assert_eq!(f.severity, WasteSeverity::Warn);
    assert!(f.title.contains("12 edits / 1 reads"), "title: {}", f.title);
    assert!(f.detail.starts_with("harness session has 12"), "detail: {}", f.detail);
}

#[test]
fn edit_heavy_renders_infinity_ratio() {
    let s = heavy(SourceKind::Codex, 0, 6, 0);
    let f = edit_heavy_to_finding(&s, &names(), &amount(0.01), "inf");
    assert!(f.title.contains("ratio ∞"), "title: {}", f.title);
}

#[test]
fn skill_recall_dup_basic() {
    let d = SkillRecallDup {
        session_id: SESSION.to_string(),
        skill_name: "init".to_string(),
        call_count: 3,
        first_turn_index: 1,
        last_turn_index: 11,
        cost_turns: Vec::new(),
    };
    let f = skill_recall_dup_to_finding(&d, &amount(0.2));
    assert_eq!(f.kind, "skill-recall-dup");
    assert!(f.title.contains("init") && f.title.contains("3×"), "title: {}", f.title);
}

#[test]
fn skill_pruning_protection_basic() {
    let p = SkillPruningProtection {
        session_id: SESSION.to_string(),
        skill_name: "init".to_string(),
        invoked_turn_index: 0,
        riding_turns: 7,
        last_cached_turn_index: 7,
        invoked_turn: 0,
        cost_turns: Vec::new(),
    };
    let f = skill_pruning_protection_to_finding(&p, &amount(0.55));
    assert_eq!(f.kind, "skill-pruning-protection");
    assert_eq!(f.severity, WasteSeverity::High);
}

#[test]
fn system_prompt_tax_riding_tokens_estimate() {
    let t = SystemPromptTax {
        session_id: SESSION.to_string(),
        first_turn_cache_create: 4500,
        first_user_message_tokens: 500,
        estimated_system_prompt_tokens: 4000,
        riding_turns: 6,
        cost_turns: Vec::new(),
    };
    let f = system_prompt_tax_to_finding(&t, &amount(0.07));
    assert_eq!(f.kind, "system-prompt-tax");
    assert_eq!(f.tokens_per_session, Some(4000 * 6));
    assert_eq!(f.cost_key, amount(0.07).key);
}

fn finding_with(kind: &str, severity: WasteSeverity, session: &str, usd: f64) -> WasteFinding {
    WasteFinding {
        kind: kind.to_string(),
        severity,
        session_id: session.to_string(),
        title: kind.to_string(),
        detail: String::new(),
        tokens_per_session: None,
        cost_key: amount(usd).key,
        actions: vec![],
        event_source: None,
    }
}

#[test]
fn sort_findings_orders_high_warn_info_then_usd() {
    let sorted = sort_findings(vec![
        finding_with("a", WasteSeverity::Info, "s1", 0.001),
        finding_with("b", WasteSeverity::High, "s2", 0.6),
        finding_with("c", WasteSeverity::High, "s3", 1.2),
        finding_with("d", WasteSeverity::Warn, "s4", 0.3),
    ]);
    let kinds: Vec<&str> = sorted.iter().map(|f| f.kind.as_str()).collect();
    assert_eq!(kinds, vec!["c", "b", "d", "a"]);
}

#[test]
fn findings_from_patterns_rolls_up_across_kinds() {
    let result = PatternsResult {
        retry_loops: vec![base_retry_loop()],
        failure_runs: vec![FailureRun {
            session_id: SESSION.to_string(),
            length: 3,
            start_turn_index: 0,
            end_turn_index: 2,
            tools_involved: vec!["Bash".to_string(), "Edit".to_string()],
            cost_turns: Vec::new(),
            error_signatures: None,
            event_source: None,
        }],
        cancelled_runs: vec![],
        compactions: vec![compaction(9000)],
        edit_reverts: vec![revert(1, 4)],
        edit_heavy_sessions: vec![],
        skill_recall_dups: vec![],
        skill_pruning_protection: vec![],
        system_prompt_taxes: vec![],
        session_summaries: vec![],
    };
    let amounts = PatternAmounts {
        retry_loops: vec![amount(0.6)],
        failure_runs: vec![amount(0.05)],
        cancelled_runs: vec![],
        compactions: vec![amount(0.04)],
        edit_reverts: vec![amount(0.2)],
        edit_heavy_sessions: vec![],
        edit_heavy_ratios: vec![],
        skill_recall_dups: vec![],
        skill_pruning_protection: vec![],
        system_prompt_taxes: vec![],
    };
    let findings = findings_from_patterns(&result, &amounts, &names());
    assert_eq!(findings.len(), 4);
    let kinds: std::collections::HashSet<&str> =
        findings.iter().map(|f| f.kind.as_str()).collect();
    assert!(kinds.contains("retry-loop"));
    assert!(kinds.contains("failure-run"));
    assert!(kinds.contains("compaction-loss"));
    assert!(kinds.contains("edit-revert"));
    assert_eq!(findings[0].kind, "retry-loop");
}

#[test]
fn format_with_commas_basic() {
    assert_eq!(format_with_commas(0), "0");
    assert_eq!(format_with_commas(100), "100");
    assert_eq!(format_with_commas(1000), "1,000");
    assert_eq!(format_with_commas(1234567), "1,234,567");
    assert_eq!(format_with_commas(9000), "9,000");
}

#[test]
fn every_source_of_an_event_has_a_pattern_source() {
    assert_eq!(
        PatternEventSource::from(ToolResultEventSource::QueueEvent),
        PatternEventSource::QueueEvent
    );
    assert_eq!(
        PatternEventSource::from(ToolResultEventSource::FunctionCallOutput),
        PatternEventSource::FunctionCallOutput
    );
}
