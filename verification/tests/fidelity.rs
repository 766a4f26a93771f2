use relayburn_analyze::fidelity::{
    empty_fidelity_summary, has_minimum_fidelity, summarize_fidelity, summarize_fidelity_from_iter,
};
use relayburn_analyze::records::{
    Coverage, Fidelity, FidelityClass, SourceKind, TurnRecord, Usage, UsageGranularity,
};

fn nothing() -> Coverage {
    Coverage {
        has_input_tokens: false,
        has_output_tokens: false,
        has_reasoning_tokens: false,
        has_cache_read_tokens: false,
        has_cache_create_tokens: false,
        has_tool_calls: false,
        has_tool_result_events: false,
        has_session_relationships: false,
        has_raw_content: false,
    }
}

fn full_fidelity() -> Fidelity {
    Fidelity {
        granularity: UsageGranularity::PerTurn,
        coverage: Coverage {
            has_input_tokens: true,
            has_output_tokens: true,
            has_cache_read_tokens: true,
            has_tool_calls: true,
            has_tool_result_events: true,
            has_session_relationships: true,
            ..nothing()
        },
        class: FidelityClass::Full,
    }
}

fn partial_fidelity() -> Fidelity {
    Fidelity {
        granularity: UsageGranularity::PerTurn,
        coverage: Coverage {
            has_input_tokens: true,
            ..nothing()
        },
        class: FidelityClass::Partial,
    }
}

fn aggregate_fidelity() -> Fidelity {
    Fidelity {
        granularity: UsageGranularity::PerSessionAggregate,
        coverage: Coverage {
            has_input_tokens: true,
            has_output_tokens: true,
            ..nothing()
        },
        class: FidelityClass::AggregateOnly,
    }
}

fn opencode_turn(i: u64) -> TurnRecord {
    TurnRecord {
        source: SourceKind::Opencode,
        session_id: "ses_multi".to_string(),
        message_id: format!("msg_{i}"),
        turn_index: i,
        ts: "2026-04-20T00:00:00.000Z".to_string(),
        model: "anthropic/sonnet-4-6".to_string(),
        project: None,
        project_key: None,
        usage: Usage {
            input: 10,
            output: 5,
            reasoning: 0,
            cache_read: 0,
            cache_create_5m: 0,
            cache_create_1h: 0,
        },
        tool_calls: Vec::new(),
        edit_retries: 0,
        subagent: None,
        activity: None,
        retries: None,
        has_edits: None,
        fidelity: Some(full_fidelity()),
    }
}

#[test]
fn returns_empty_summary_for_empty_turn_list() {
    let s = summarize_fidelity_from_iter(&[]);
    assert_eq!(s, empty_fidelity_summary());
    assert_eq!(s.total, 0);
}

#[test]
fn counts_each_turn_into_by_class_and_by_granularity() {
    let (full, partial, agg) = (full_fidelity(), partial_fidelity(), aggregate_fidelity());
    let s = summarize_fidelity_from_iter(&[Some(full), Some(full), Some(partial), Some(agg)]);
    assert_eq!(s.total, 4);
    assert_eq!(s.by_class.full, 2);
    assert_eq!(s.by_class.partial, 1);
    assert_eq!(s.by_class.aggregate_only, 1);
    assert_eq!(s.by_granularity.per_turn, 3);
    assert_eq!(s.by_granularity.per_session_aggregate, 1);
    assert_eq!(s.unknown, 0);
}

#[test]
fn reports_records_without_fidelity_in_unknown_bucket() {
    let s = summarize_fidelity_from_iter(&[None, Some(full_fidelity()), None]);
    assert_eq!(s.total, 3);
    assert_eq!(s.unknown, 2);
    assert_eq!(s.by_class.full, 1);
    assert_eq!(s.missing_coverage.has_output_tokens, 0);
}

#[test]
fn counts_missing_fields_correctly_across_mixed_fidelity() {
    let s = summarize_fidelity_from_iter(&[Some(full_fidelity()), Some(partial_fidelity())]);
    assert_eq!(s.missing_coverage.has_input_tokens, 0);
    assert_eq!(s.missing_coverage.has_output_tokens, 1);
    assert_eq!(s.missing_coverage.has_cache_read_tokens, 1);
    assert_eq!(s.missing_coverage.has_tool_result_events, 1);
    assert_eq!(s.missing_coverage.has_session_relationships, 1);
    assert_eq!(s.missing_coverage.has_reasoning_tokens, 2);
}

#[test]
fn over_an_opencode_session_unknown_is_zero() {
    let turns: Vec<TurnRecord> = (0..3).map(opencode_turn).collect();
    assert!(!turns.is_empty());
    let summary = summarize_fidelity(&turns);
    assert_eq!(summary.unknown, 0);
    assert_eq!(summary.total as usize, turns.len());
    assert_eq!(summary.by_granularity.per_turn as usize, turns.len());
}

#[test]
fn has_minimum_fidelity_treats_undefined_as_passing() {
    assert!(has_minimum_fidelity(None, FidelityClass::Full));
    assert!(has_minimum_fidelity(None, FidelityClass::UsageOnly));
}

#[test]
fn has_minimum_fidelity_orders_classes_from_cost_only_up_to_full() {
    let (full, partial, agg) = (full_fidelity(), partial_fidelity(), aggregate_fidelity());
    assert!(has_minimum_fidelity(Some(&full), FidelityClass::UsageOnly));
    assert!(has_minimum_fidelity(Some(&full), FidelityClass::Full));
    assert!(!has_minimum_fidelity(Some(&partial), FidelityClass::UsageOnly));
    assert!(!has_minimum_fidelity(Some(&partial), FidelityClass::Full));
    assert!(has_minimum_fidelity(Some(&agg), FidelityClass::AggregateOnly));
    assert!(!has_minimum_fidelity(Some(&agg), FidelityClass::UsageOnly));
}

#[test]
fn the_classes_and_the_unknown_records_add_up() {
    let list = [Some(full_fidelity()), None, Some(partial_fidelity()), Some(aggregate_fidelity())];
    let s = summarize_fidelity_from_iter(&list);
    let c = s.by_class;
    let known = c.full + c.usage_only + c.aggregate_only + c.cost_only + c.partial;
    assert_eq!(known + s.unknown, s.total);
    assert_eq!(s.total, 4);
}
