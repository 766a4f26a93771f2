use relayburn_analyze::compare::{
    build_compare_table, compare_models, CompareCell, CompareOptions, CompareTable,
};
use relayburn_analyze::records::{SourceKind, TurnRecord, Usage};

fn turn(
    model: &str,
    activity: Option<&str>,
    usage: Usage,
    has_edits: Option<bool>,
    retries: Option<u64>,
) -> TurnRecord {
    TurnRecord {
        source: SourceKind::ClaudeCode,
        session_id: "s".to_string(),
        message_id: "m".to_string(),
        turn_index: 0,
        ts: "2026-04-20T00:00:00.000Z".to_string(),
        model: model.to_string(),
        project: None,
        project_key: None,
        usage,
        tool_calls: Vec::new(),
        edit_retries: 0,
        subagent: None,
        activity: activity.map(|a| a.to_string()),
        retries,
        has_edits,
        fidelity: None,
    }
}

fn usage_of(input: u64, output: u64, cache_read: u64) -> Usage {
    Usage {
        input,
        output,
        reasoning: 0,
        cache_read,
        cache_create_5m: 0,
        cache_create_1h: 0,
    }
}

fn default_usage() -> Usage {
    usage_of(1000, 500, 0)
}

fn is_priced(t: &TurnRecord) -> bool {
    t.model == "sonnet-4-6" || t.model == "haiku-4-5" || t.model == "opus-4-1"
}

fn price(t: &TurnRecord) -> f64 {
    (t.usage.input as f64 * 3.0 + t.usage.output as f64 * 15.0) / 1_000_000.0
}

fn cost_of(turns: &[TurnRecord], at: &[usize]) -> f64 {
    at.iter().map(|i| price(&turns[*i])).sum()
}

fn table(turns: &[TurnRecord], opts: &CompareOptions) -> CompareTable {
    let priced: Vec<bool> = turns.iter().map(is_priced).collect();
    let models = compare_models(turns, &priced, opts);
    let keys: Vec<i64> = models
        .iter()
        .map(|m| (cost_of(turns, &m.cost_turns) * 1e9) as i64)
        .collect();
    build_compare_table(turns, &priced, &keys, opts)
}

fn model_at(t: &CompareTable, model: &str) -> usize {
    t.models.iter().position(|m| m == model).unwrap()
}

fn cell<'a>(t: &'a CompareTable, model: &str, category: &str) -> &'a CompareCell {
    let c = t.categories.iter().position(|c| c == category).unwrap();
    &t.cells[model_at(t, model)][c]
}

fn one_shot_rate(c: &CompareCell) -> Option<f64> {
    if c.edit_turns > 0 {
        Some(c.one_shot_turns as f64 / c.edit_turns as f64)
    } else {
        None
    }
}

fn cost_per_turn(turns: &[TurnRecord], c: &CompareCell) -> Option<f64> {
    if c.priced_turns > 0 {
        Some(cost_of(turns, &c.cost_turns) / c.priced_turns as f64)
    } else {
        None
    }
}

#[test]
fn buckets_turns_by_model_and_activity_with_per_cell_metrics() {
    let mut turns: Vec<TurnRecord> = Vec::new();
    for r in [0u64, 0, 0, 0, 2, 1] {
        turns.push(turn("sonnet-4-6", Some("coding"), default_usage(), Some(true), Some(r)));
    }
    for r in [0u64, 0, 1, 2, 1] {
        turns.push(turn("haiku-4-5", Some("coding"), default_usage(), Some(true), Some(r)));
    }
    for _ in 0..2 {
        turns.push(turn("sonnet-4-6", Some("exploration"), default_usage(), Some(false), None));
    }
    let t = table(&turns, &CompareOptions::new());
    let mut sorted = t.models.clone();
    sorted.sort();
    assert_eq!(sorted, vec!["haiku-4-5", "sonnet-4-6"]);
    assert!(t.categories.iter().any(|c| c == "coding"));
    assert!(t.categories.iter().any(|c| c == "exploration"));

    let sonnet_coding = cell(&t, "sonnet-4-6", "coding");
    assert_eq!(sonnet_coding.turns, 6);
    assert_eq!(sonnet_coding.edit_turns, 6);
    assert_eq!(sonnet_coding.one_shot_turns, 4);
    assert_eq!(one_shot_rate(sonnet_coding), Some(4.0 / 6.0));

    let haiku_coding = cell(&t, "haiku-4-5", "coding");
    assert_eq!(haiku_coding.turns, 5);
    assert_eq!(one_shot_rate(haiku_coding), Some(2.0 / 5.0));

    let haiku_exploration = cell(&t, "haiku-4-5", "exploration");
    assert_eq!(haiku_exploration.turns, 0);
    assert!(haiku_exploration.no_data);
    assert!(!haiku_exploration.insufficient_sample);
    assert_eq!(cost_per_turn(&turns, haiku_exploration), None);
    assert_eq!(one_shot_rate(haiku_exploration), None);
}

#[test]
fn returns_none_one_shot_rate_for_categories_with_no_edit_turns() {
    let t1 = turn("sonnet-4-6", Some("exploration"), default_usage(), Some(false), None);
    let t = table(&[t1.clone(), t1], &CompareOptions::new());
    let c = cell(&t, "sonnet-4-6", "exploration");
    assert_eq!(c.turns, 2);
    assert_eq!(c.edit_turns, 0);
    assert_eq!(one_shot_rate(c), None);
    assert_eq!(c.median_retries, None);
}

#[test]
fn flags_low_sample_cells_as_insufficient_not_no_data() {
    let t1 = turn("sonnet-4-6", Some("refactoring"), default_usage(), Some(true), Some(0));
    let opts = CompareOptions {
        models: None,
        min_sample: Some(5),
    };
    let t = table(&[t1.clone(), t1], &opts);
    let c = cell(&t, "sonnet-4-6", "refactoring");
    assert!(c.insufficient_sample);
    assert!(!c.no_data);
    assert_eq!(c.turns, 2);
}

fn coding(model: &str) -> TurnRecord {
    turn(model, Some("coding"), default_usage(), Some(true), Some(0))
}

fn only(models: &[&str]) -> CompareOptions {
    CompareOptions {
        models: Some(models.iter().map(|m| m.to_string()).collect()),
        min_sample: None,
    }
}

#[test]
fn applies_models_filter() {
    let turns = [coding("sonnet-4-6"), coding("haiku-4-5"), coding("opus-4-1")];
    let t = table(&turns, &only(&["sonnet-4-6", "haiku-4-5"]));
    let mut sorted = t.models.clone();
    sorted.sort();
    assert_eq!(sorted, vec!["haiku-4-5", "sonnet-4-6"]);
}

#[test]
fn keeps_explicitly_requested_models_visible_with_zero_turns() {
    let t = table(&[coding("sonnet-4-6")], &only(&["sonnet-4-6", "haiku-4-5"]));
    assert!(t.models.iter().any(|m| m == "haiku-4-5"));
    let c = cell(&t, "haiku-4-5", "coding");
    assert!(c.no_data);
    assert_eq!(c.turns, 0);
    assert_eq!(t.totals[model_at(&t, "haiku-4-5")].turns, 0);
}

#[test]
fn renders_cost_per_turn_as_none_when_no_priced_turn() {
    let mut second = coding("definitely-not-a-model");
    second.retries = Some(1);
    let turns = [coding("definitely-not-a-model"), second];
    let t = table(&turns, &CompareOptions::new());
    let c = cell(&t, "definitely-not-a-model", "coding");
    assert_eq!(c.turns, 2);
    assert_eq!(c.priced_turns, 0);
    assert_eq!(cost_of(&turns, &c.cost_turns), 0.0);
    assert_eq!(cost_per_turn(&turns, c), None);
}

#[test]
fn uses_priced_turns_as_cost_per_turn_denominator() {
    let mut t1 = coding("sonnet-4-6");
    t1.usage = usage_of(1_000_000, 0, 0);
    let turns = [t1.clone(), t1];
    let t = table(&turns, &CompareOptions::new());
    let c = cell(&t, "sonnet-4-6", "coding");
    assert_eq!(c.priced_turns, 2);
    assert_eq!(c.turns, 2);
    let cpt = cost_per_turn(&turns, c).expect("priced");
    assert!((cpt - cost_of(&turns, &c.cost_turns) / 2.0).abs() < 1e-9);
}

#[test]
fn compare_groups_unclassified_turns_under_unclassified() {
    let t1 = turn("sonnet-4-6", None, default_usage(), Some(false), None);
    let t = table(&[t1.clone(), t1], &CompareOptions::new());
    assert!(t.categories.iter().any(|c| c == "unclassified"));
    assert_eq!(cell(&t, "sonnet-4-6", "unclassified").turns, 2);
}

#[test]
fn total_cost_per_model_matches_sum_of_its_cells() {
    let usage = |input| usage_of(input, 100_000, 0);
    let turns = [
        turn("sonnet-4-6", Some("coding"), usage(500_000), Some(true), Some(0)),
        turn("sonnet-4-6", Some("debugging"), usage(1_000_000), Some(true), Some(1)),
    ];
    let t = table(&turns, &CompareOptions::new());
    let sum = cost_of(&turns, &cell(&t, "sonnet-4-6", "coding").cost_turns)
        + cost_of(&turns, &cell(&t, "sonnet-4-6", "debugging").cost_turns);
    let total = cost_of(&turns, &t.totals[model_at(&t, "sonnet-4-6")].cost_turns);
    assert!((sum - total).abs() < 1e-9);
}

#[test]
fn computes_cache_hit_rate_across_input_and_cache_buckets() {
    let mut t1 = coding("sonnet-4-6");
    t1.usage = usage_of(1000, 200, 3000);
    let t = table(&[t1], &CompareOptions::new());
    let c = cell(&t, "sonnet-4-6", "coding");
    assert!(c.has_input);
    let u = c.usage;
    let all = u.input + u.cache_read + u.cache_create_5m + u.cache_create_1h;
    let rate = u.cache_read as f64 / all as f64;
    assert!((rate - 3000.0 / 4000.0).abs() < 1e-9);
}

#[test]
fn the_median_of_an_even_number_of_retries_lies_between_two() {
    let turns: Vec<TurnRecord> = [5u64, 1, 2, 9]
        .iter()
        .map(|r| turn("sonnet-4-6", Some("coding"), default_usage(), Some(true), Some(*r)))
        .collect();
    let t = table(&turns, &CompareOptions::new());
    assert_eq!(cell(&t, "sonnet-4-6", "coding").median_retries, Some((2, 5)));
    let t = table(&turns[..3], &CompareOptions::new());
    assert_eq!(cell(&t, "sonnet-4-6", "coding").median_retries, Some((2, 2)));
}

#[test]
fn the_dearest_model_comes_first() {
    let mut dear = coding("opus-4-1");
    dear.usage = usage_of(1_000_000, 0, 0);
    let t = table(&[coding("haiku-4-5"), dear], &CompareOptions::new());
    assert_eq!(t.models, vec!["opus-4-1", "haiku-4-5"]);
    assert_eq!(t.min_sample, 5);
}
