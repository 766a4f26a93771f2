use relayburn_analyze::provider::{
    aggregate_by_provider, default_rules, filter_turns_by_provider, provider_for,
    provider_for_model, provider_for_turn, rank_providers, resolve_turn_provider, CoverageField,
    ProviderAggregateRow,
};
use relayburn_analyze::records::{SourceKind, TurnRecord, Usage};

fn turn(model: &str, source: SourceKind, usage: Usage) -> TurnRecord {
    TurnRecord {
        source,
        session_id: "s-provider".to_string(),
        message_id: "m-provider".to_string(),
        turn_index: 0,
        ts: "2026-04-20T00:00:00.000Z".to_string(),
        model: model.to_string(),
        project: None,
        project_key: None,
        usage,
        tool_calls: Vec::new(),
        edit_retries: 0,
        subagent: None,
        activity: None,
        retries: None,
        has_edits: None,
        fidelity: None,
    }
}

fn tokens(input: u64, output: u64) -> Usage {
    Usage {
        input,
        output,
        reasoning: 0,
        cache_read: 0,
        cache_create_5m: 0,
        cache_create_1h: 0,
    }
}

fn one_million_in_one_million_out() -> Usage {
    tokens(1_000_000, 1_000_000)
}

fn price(t: &TurnRecord) -> f64 {
    let (input, output) = match provider_for(t).normalized_model.as_str() {
        "deepseek-r1" => (1.0, 2.0),
        "gpt-5" => (3.0, 6.0),
        _ => (0.0, 0.0),
    };
    (t.usage.input as f64 * input + t.usage.output as f64 * output) / 1_000_000.0
}

fn cost(turns: &[TurnRecord], row: &ProviderAggregateRow) -> f64 {
    row.cost_turns.iter().map(|i| price(&turns[*i])).sum()
}

fn aggregate(turns: &[TurnRecord]) -> Vec<ProviderAggregateRow> {
    let rows = aggregate_by_provider(turns, &default_rules());
    let keys: Vec<i64> = rows.iter().map(|r| (cost(turns, r) * 1e9) as i64).collect();
    rank_providers(rows, &keys)
}

#[test]
fn reattributes_synthetic_routed_models_before_source_fallback() {
    let p = provider_for(&turn(
        "hf:deepseek-ai/deepseek-r1",
        SourceKind::ClaudeCode,
        one_million_in_one_million_out(),
    ));
    assert_eq!(p.provider, "synthetic");
    assert_eq!(p.normalized_model, "deepseek-r1");
    assert_eq!(p.matched_rule.as_deref(), Some("synthetic-huggingface"));
}

#[test]
fn falls_through_to_collector_implied_providers() {
    let provider = |m: &str, s: SourceKind| provider_for(&turn(m, s, tokens(1, 1))).provider;
    assert_eq!(provider("gpt-5", SourceKind::Codex), "openai");
    assert_eq!(provider("anthropic/sonnet-4-6", SourceKind::Opencode), "anthropic");
}

#[test]
fn aggregate_groups_synthetic_turns_regardless_of_routing_prefix() {
    let turns = [
        turn("hf:deepseek-ai/deepseek-r1", SourceKind::ClaudeCode, tokens(1_000_000, 0)),
        turn("synthetic/deepseek-r1", SourceKind::ClaudeCode, tokens(0, 1_000_000)),
    ];
    let rows = aggregate(&turns);
    assert_eq!(rows.len(), 1);
    assert_eq!(rows[0].provider, "synthetic");
    assert_eq!(rows[0].turns, 2);
    assert_eq!(rows[0].usage.input, 1_000_000);
    assert_eq!(rows[0].usage.output, 1_000_000);
    assert_eq!(cost(&turns, &rows[0]), 3.0);
}

#[test]
fn aggregate_falls_through_to_collector_for_non_synthetic_turns() {
    let turns = [turn("gpt-5", SourceKind::Codex, one_million_in_one_million_out())];
    let rows = aggregate(&turns);
    assert_eq!(rows.len(), 1);
    assert_eq!(rows[0].provider, "openai");
    assert_eq!(cost(&turns, &rows[0]), 9.0);
}

#[test]
fn aggregate_returns_empty_for_empty_input() {
    assert!(aggregate(&[]).is_empty());
}

#[test]
fn aggregate_orders_rows_by_descending_total_cost() {
    let turns = [
        turn("hf:deepseek-ai/deepseek-r1", SourceKind::ClaudeCode, tokens(1_000_000, 0)),
        turn("gpt-5", SourceKind::Codex, one_million_in_one_million_out()),
    ];
    let rows = aggregate(&turns);
    assert_eq!(rows.len(), 2);
    assert_eq!(rows[0].provider, "openai");
    assert_eq!(rows[1].provider, "synthetic");
    assert!(cost(&turns, &rows[0]) > cost(&turns, &rows[1]));
}

#[test]
fn aggregate_preserves_first_seen_order_for_cost_ties() {
    let turns = [
        turn("unknown-model-a", SourceKind::AnthropicApi, tokens(1_000, 0)),
        turn("unknown-model-b", SourceKind::OpenaiApi, tokens(1_000, 0)),
    ];
    let rows = aggregate(&turns);
    assert_eq!(rows.len(), 2);
    assert_eq!(cost(&turns, &rows[0]), 0.0);
    assert_eq!(cost(&turns, &rows[1]), 0.0);
    assert_eq!(rows[0].provider, "anthropic");
    assert_eq!(rows[1].provider, "openai");
}

#[test]
fn filter_returns_input_unchanged_when_filter_is_none() {
    let turns = [turn("sonnet-4-6", SourceKind::ClaudeCode, tokens(1, 1))];
    assert_eq!(filter_turns_by_provider(&turns, None).len(), 1);
}

#[test]
fn filter_keeps_only_matching_providers() {
    let turns = [
        turn("gpt-5", SourceKind::Codex, tokens(1, 1)),
        turn("sonnet-4-6", SourceKind::ClaudeCode, tokens(1, 1)),
    ];
    let want = vec!["openai".to_string()];
    let filtered = filter_turns_by_provider(&turns, Some(&want));
    assert_eq!(filtered.len(), 1);
    assert_eq!(filtered[0].model, "gpt-5");
}

#[test]
fn a_provider_in_front_of_a_model_is_read_in_lower_case() {
    let p = provider_for(&turn("OpenAI/gpt-5", SourceKind::Opencode, tokens(1, 1)));
    assert_eq!(p.provider, "openai");
    assert_eq!(p.raw_model, "OpenAI/gpt-5");
}

#[test]
fn the_ways_to_ask_for_a_provider_agree() {
    let t = turn("openai/gpt-5", SourceKind::Codex, tokens(1, 1));
    let r = provider_for(&t);
    assert_eq!(r.provider, "openai");
    assert_eq!(provider_for_turn(&t).provider, r.provider);
    assert_eq!(resolve_turn_provider(&t).provider, r.provider);
    assert_eq!(provider_for_model("openai/gpt-5", Some(SourceKind::Codex)).provider, r.provider);
    assert_eq!(provider_for_model("openai/gpt-5", None).raw_model, "openai/gpt-5");
}

#[test]
fn the_coverage_of_one_number_can_be_changed() {
    let turns = [turn("openai/gpt-5", SourceKind::Codex, tokens(1, 1))];
    let mut coverage = aggregate_by_provider(&turns, &default_rules()).remove(0).coverage;
    let before = coverage.field(CoverageField::Output).known;
    coverage.field_mut(CoverageField::Input).missing += 5;
    assert_eq!(coverage.field(CoverageField::Input).missing, 5);
    assert_eq!(coverage.field(CoverageField::Output).known, before);
    assert_eq!(coverage.field(CoverageField::Output).missing, 0);
}
