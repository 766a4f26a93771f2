use relayburn_analyze::cost::{
    flatten, index_prices, lookup_model_rate, options_for_source, reasoning_mode_for_source, reasoning_tariff,
    CostForUsageOptions, ListedModel, ReasoningMode, ReasoningTariff,
};
use relayburn_analyze::records::{SourceKind, Usage};
use vstd::hash_map::StringHashMap;

#[derive(Clone, Copy)]
struct Rates {
    input: f64,
    output: f64,
    cache_read: f64,
    cache_write: f64,
    reasoning: Option<f64>,
    mode: ReasoningMode,
}

fn rates(input: f64, output: f64, cache_read: f64) -> Rates {
    Rates {
        input,
        output,
        cache_read,
        cache_write: input,
        reasoning: None,
        mode: ReasoningMode::SameAsOutput,
    }
}

struct Cost {
    input: f64,
    output: f64,
    reasoning: f64,
    cache_create: f64,
    total: f64,
}

fn bill(u: &Usage, r: &Rates, options: CostForUsageOptions) -> Cost {
    let per = |tokens: u64, rate: f64| tokens as f64 / 1_000_000.0 * rate;
    let reasoning = match reasoning_tariff(options, r.mode, r.reasoning.is_some()) {
        ReasoningTariff::Unbilled => 0.0,
        ReasoningTariff::Reasoning => per(u.reasoning, r.reasoning.unwrap()),
        ReasoningTariff::Output => per(u.reasoning, r.output),
    };
    let (input, output) = (per(u.input, r.input), per(u.output, r.output));
    let cache_create = per(u.cache_create_5m + u.cache_create_1h, r.cache_write);
    Cost {
        input,
        output,
        reasoning,
        cache_create,
        total: input + output + reasoning + per(u.cache_read, r.cache_read) + cache_create,
    }
}

fn usage_with(input: u64, output: u64, reasoning: u64) -> Usage {
    Usage {
        input,
        output,
        reasoning,
        cache_read: 0,
        cache_create_5m: 0,
        cache_create_1h: 0,
    }
}

fn table(models: &[&str]) -> StringHashMap<usize> {
    let mut t = StringHashMap::new();
    for (i, m) in models.iter().enumerate() {
        t.insert(m.to_string(), i);
    }
    t
}

#[test]
fn computes_dollars_for_a_simple_sonnet_turn() {
    let r = rates(3.0, 15.0, 0.3);
    let options = options_for_source(SourceKind::ClaudeCode);
    let c = bill(&usage_with(1_000_000, 1_000_000, 0), &r, options);
    assert_eq!(c.input, r.input);
    assert_eq!(c.output, r.output);
    assert_eq!(c.total, r.input + r.output);
}

#[test]
fn applies_cache_write_rate_to_both_5m_and_1h_cache_creation() {
    let r = rates(5.0, 25.0, 0.5);
    let u = Usage {
        cache_create_5m: 500_000,
        cache_create_1h: 500_000,
        ..usage_with(0, 0, 0)
    };
    let c = bill(&u, &r, CostForUsageOptions::default());
    assert_eq!(c.cache_create, r.cache_write);
}

#[test]
fn bills_reasoning_at_output_rate_for_claude_same_as_output() {
    let r = rates(3.0, 15.0, 0.3);
    let options = options_for_source(SourceKind::ClaudeCode);
    let c = bill(&usage_with(0, 1_000_000, 1_000_000), &r, options);
    assert_eq!(c.output, r.output);
    assert_eq!(c.reasoning, r.output);
    assert_eq!(c.total, r.output * 2.0);
}

#[test]
fn does_not_double_bill_reasoning_for_codex_turns() {
    let options = options_for_source(SourceKind::Codex);
    let c = bill(&usage_with(1_000_000, 500_000, 200_000), &rates(2.5, 15.0, 0.0), options);
    assert_eq!(c.input, 2.5);
    assert_eq!(c.output, 7.5);
    assert_eq!(c.reasoning, 0.0);
    assert_eq!(c.total, 10.0);
}

#[test]
fn codex_regression_11_3_percent_overstatement_scenario() {
    let u = Usage {
        cache_read: 5_618_688,
        ..usage_with(660_698, 52_676, 29_070)
    };
    let c = bill(&u, &rates(1.25, 10.0, 0.125), options_for_source(SourceKind::Codex));
    let expected = (660_698.0_f64 / 1_000_000.0) * 1.25
        + (52_676.0_f64 / 1_000_000.0) * 10.0
        + (5_618_688.0_f64 / 1_000_000.0) * 0.125;
    assert!((c.total - expected).abs() < 1e-9);
    assert_eq!(c.reasoning, 0.0);
}

#[test]
fn honors_a_separate_reasoning_tariff_when_models_dev_provides_one() {
    let r = Rates {
        reasoning: Some(8.0),
        mode: ReasoningMode::Separate,
        ..rates(1.0, 4.0, 0.0)
    };
    let u = usage_with(1_000_000, 1_000_000, 1_000_000);
    let c = bill(&u, &r, CostForUsageOptions::default());
    assert_eq!(c.input, 1.0);
    assert_eq!(c.output, 4.0);
    assert_eq!(c.reasoning, 8.0);
    assert_eq!(c.total, 13.0);
}

#[test]
fn explicit_reasoning_mode_option_overrides_the_model_default() {
    let u = usage_with(0, 0, 1_000_000);
    let r = rates(1.0, 10.0, 0.0);
    let billed = bill(&u, &r, CostForUsageOptions::default());
    let skipped = bill(
        &u,
        &r,
        CostForUsageOptions {
            reasoning_mode: Some(ReasoningMode::IncludedInOutput),
        },
    );
    assert_eq!(billed.reasoning, 10.0);
    assert_eq!(skipped.reasoning, 0.0);
}

#[test]
fn returns_none_for_unknown_model() {
    assert!(lookup_model_rate("definitely-not-a-model", &table(&["gpt-5"])).is_none());
}

#[test]
fn lookup_model_rate_falls_back_to_synthetic_normalization() {
    let t = table(&["other", "qwen3-coder"]);
    assert_eq!(lookup_model_rate("synthetic/qwen3-coder", &t), Some(1));
}

#[test]
fn prices_hf_deepseek_r1_against_deepseek_r1() {
    let t = table(&["gpt-5", "deepseek-r1"]);
    assert_eq!(lookup_model_rate("hf:deepseek-ai/deepseek-r1", &t), Some(1));
}

#[test]
fn prices_fireworks_deepseek_r1_against_deepseek_r1() {
    let t = table(&["gpt-5", "deepseek-r1"]);
    assert_eq!(lookup_model_rate("accounts/fireworks/models/deepseek-r1", &t), Some(1));
}

#[test]
fn returns_none_for_synthetic_prefixed_unknown_models() {
    let t = table(&["gpt-5", "deepseek-r1"]);
    assert_eq!(lookup_model_rate("hf:org/totally-fake-model-xyz", &t), None);
}

#[test]
fn does_not_regress_direct_priced_models() {
    assert_eq!(lookup_model_rate("sonnet-4-6", &table(&["sonnet-4-6"])), Some(0));
}

#[test]
fn a_provider_in_front_of_a_model_is_dropped() {
    assert_eq!(lookup_model_rate("openai/gpt-5", &table(&["gpt-5"])), Some(0));
}

#[test]
fn only_codex_includes_reasoning_in_its_output() {
    assert_eq!(
        reasoning_mode_for_source(SourceKind::Codex),
        Some(ReasoningMode::IncludedInOutput)
    );
    assert_eq!(reasoning_mode_for_source(SourceKind::ClaudeCode), None);
}

fn listed(id: &str, input: bool, output: bool, reasoning: bool) -> ListedModel {
    ListedModel {
        id: id.to_string(),
        has_input: input,
        has_output: output,
        has_cache_write: reasoning,
        has_reasoning: reasoning,
    }
}

#[test]
fn flatten_preserves_separate_reasoning_tariff() {
    let flat = flatten(&[listed("reasoner-v1", true, true, true)]);
    assert_eq!(flat.len(), 1);
    assert_eq!(flat[0].id, "reasoner-v1");
    assert_eq!(flat[0].at, 0);
    assert!(!flat[0].write_as_input);
    assert_eq!(flat[0].reasoning_mode, ReasoningMode::Separate);
}

#[test]
fn flatten_defaults_reasoning_mode_to_same_as_output() {
    let flat = flatten(&[listed("plain-v1", true, true, false)]);
    assert_eq!(flat[0].reasoning_mode, ReasoningMode::SameAsOutput);
    assert!(flat[0].write_as_input);
}

#[test]
fn flatten_resolves_duplicate_model_ids_with_last_wins_file_order() {
    let list = [listed("shared", true, true, false), listed("shared", true, true, false)];
    for _ in 0..10 {
        let flat = flatten(&list);
        assert_eq!(flat.len(), 1);
        assert_eq!(flat[0].at, 1);
    }
}

#[test]
fn flatten_skips_models_without_input_or_output() {
    let flat = flatten(&[listed("broken", true, false, false), listed("ok", true, true, false)]);
    let ids: Vec<&str> = flat.iter().map(|f| f.id.as_str()).collect();
    assert_eq!(ids, vec!["ok"]);
}

#[test]
fn prices_of_a_later_list_win() {
    let ids: Vec<String> = ["a", "b", "a", "c"].iter().map(|s| s.to_string()).collect();
    let index = index_prices(&ids);
    assert_eq!(lookup_model_rate("a", &index), Some(2));
    assert_eq!(lookup_model_rate("b", &index), Some(1));
    assert_eq!(lookup_model_rate("c", &index), Some(3));
    assert_eq!(lookup_model_rate("d", &index), None);
}
