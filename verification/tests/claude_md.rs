use relayburn_analyze::claude_md::{find_headings, parse_claude_md, ParsedClaudeMd};
use relayburn_analyze::md_cost::{
    attribute_claude_md_refs, build_trim_recommendations, display_path,
    render_unified_diff_for_recommendation, ClaudeMdAttributionResult, SectionCost,
};
use relayburn_analyze::records::{SourceKind, TurnRecord, Usage};

/// Dollars that a million tokens read from the cache cost.
const CACHE_READ: f64 = 0.3;

fn make_turn(session_id: &str, message_id: &str, turn_index: u64, usage: Usage) -> TurnRecord {
    TurnRecord {
        source: SourceKind::ClaudeCode,
        session_id: session_id.to_string(),
        message_id: message_id.to_string(),
        turn_index,
        ts: "2026-04-23T00:00:00.000Z".to_string(),
        model: "sonnet-4-6".to_string(),
        project: None,
        project_key: None,
        usage,
        tool_calls: Vec::new(),
        edit_retries: 0,
        subagent: None,
        activity: None,
        retries: None,
        has_edits: None,
        fidelity: None,
    }
}

fn usage(input: u64, output: u64, cache_read: u64) -> Usage {
    Usage {
        input,
        output,
        reasoning: 0,
        cache_read,
        cache_create_5m: 0,
        cache_create_1h: 0,
    }
}

fn attribute(files: &[ParsedClaudeMd], turns: &[TurnRecord]) -> ClaudeMdAttributionResult {
    let at: Vec<usize> = (0..turns.len()).collect();
    let priced = vec![true; turns.len()];
    attribute_claude_md_refs(files, turns, &at, &priced, &priced)
}

fn session_cost(r: &ClaudeMdAttributionResult, i: usize) -> f64 {
    let per_turn = r.total_tokens as f64 / 1_000_000.0 * CACHE_READ;
    r.session_costs[i].cost_turns.len() as f64 * per_turn
}

fn total_cost(r: &ClaudeMdAttributionResult) -> f64 {
    (0..r.session_costs.len()).map(|i| session_cost(r, i)).sum()
}

fn share(r: &ClaudeMdAttributionResult, s: &SectionCost) -> f64 {
    s.bytes as f64 / r.total_bytes as f64
}

#[test]
fn returns_a_single_preamble_section_for_a_file_with_no_headings() {
    let parsed = parse_claude_md("/p/AGENTS.md", "just a paragraph\nwith some content");
    assert_eq!(parsed.sections.len(), 1);
    assert_eq!(parsed.sections[0].level, 0);
    assert_eq!(parsed.sections[0].heading, "(preamble)");
    assert_eq!(parsed.grouping_level, 0);
}

#[test]
fn groups_by_h2_when_h2_sections_exist_treating_leading_content_as_preamble() {
    let text = [
        "# Title",
        "intro paragraph",
        "",
        "## Architecture",
        "arch line 1",
        "arch line 2",
        "",
        "## Testing",
        "testing line 1",
    ]
    .join("\n");
    let parsed = parse_claude_md("/p/AGENTS.md", &text);
    assert_eq!(parsed.grouping_level, 2);
    assert_eq!(parsed.sections.len(), 3);
    assert_eq!(parsed.sections[0].level, 0);
    assert_eq!(parsed.sections[1].heading, "## Architecture");
    assert_eq!(parsed.sections[2].heading, "## Testing");
    assert_eq!(parsed.sections[1].start_line, 4);
    assert_eq!(parsed.sections[1].end_line, 7);
    assert_eq!(parsed.sections[2].start_line, 8);
    assert_eq!(parsed.sections[2].end_line, 9);
}

#[test]
fn groups_by_h1_when_no_h2_exists() {
    let text = ["# Section A", "a body", "# Section B", "b body"].join("\n");
    let parsed = parse_claude_md("/p/AGENTS.md", &text);
    assert_eq!(parsed.grouping_level, 1);
    assert_eq!(parsed.sections.len(), 2);
    assert_eq!(parsed.sections[0].heading, "# Section A");
    assert_eq!(parsed.sections[1].heading, "# Section B");
}

#[test]
fn ignores_headings_inside_fenced_code_blocks() {
    let text = [
        "## Real heading",
        "body",
        "",
        "```",
        "## not a heading",
        "```",
        "",
        "## Another real heading",
    ]
    .join("\n");
    let parsed = parse_claude_md("/p/AGENTS.md", &text);
    assert_eq!(parsed.sections.len(), 2);
    assert_eq!(parsed.sections[0].heading, "## Real heading");
    assert_eq!(parsed.sections[1].heading, "## Another real heading");
}

#[test]
fn a_python_line_inside_a_3_backtick_fence_does_not_close_the_fence() {
    let text = [
        "```",
        "## inside block",
        "````python",
        "## should-be-inside",
        "```",
        "## should-be-outside",
    ]
    .join("\n");
    let parsed = parse_claude_md("/p/AGENTS.md", &text);
    let headings: Vec<&str> = parsed
        .sections
        .iter()
        .filter(|s| s.level > 0)
        .map(|s| s.heading.as_str())
        .collect();
    assert_eq!(headings, vec!["## should-be-outside"]);
}

#[test]
fn does_not_count_a_trailing_newline_as_an_extra_line() {
    let parsed = parse_claude_md("/p/AGENTS.md", "## Section\nbody\n");
    assert_eq!(parsed.total_lines, 2);
    assert_eq!(parsed.sections[0].end_line, 2);
}

#[test]
fn normalizes_crlf_line_endings() {
    let parsed = parse_claude_md("/p/AGENTS.md", "## A\r\nbody\r\n## B\r\nb\r\n");
    assert_eq!(parsed.sections.len(), 2);
    assert_eq!(parsed.sections[0].heading, "## A");
    assert_eq!(parsed.sections[1].heading, "## B");
}

#[test]
fn returns_zero_sections_for_empty_input() {
    let parsed = parse_claude_md("/p/AGENTS.md", "");
    assert_eq!(parsed.total_lines, 0);
    assert_eq!(parsed.sections.len(), 0);
}

#[test]
fn attributes_per_turn_cost_within_10_pct_of_hand_computed_truth() {
    let mut text = String::from("# Title\n");
    text.push_str(&"x".repeat(4000 - 8));
    let parsed = parse_claude_md("/p/AGENTS.md", &text);
    assert_eq!(parsed.tokens, 1000);
    let mut turns: Vec<TurnRecord> = Vec::new();
    for i in 0..5 {
        let u = usage(50, 30, parsed.tokens + 5000);
        turns.push(make_turn("s-cm-1", &format!("m-{i}"), i, u));
    }
    let result = attribute(&[parsed.clone()], &turns);
    let expected = 5.0 * (parsed.tokens as f64 / 1_000_000.0) * CACHE_READ;
    assert!((total_cost(&result) - expected).abs() <= expected * 0.10);
    assert_eq!(result.session_costs.len(), 1);
    assert_eq!(result.session_costs[0].riding_turns, 5);
    assert_eq!(result.session_costs[0].cost_turns, vec![0, 1, 2, 3, 4]);
}

#[test]
fn section_cost_is_proportional_to_its_token_share() {
    let mut text = String::new();
    text.push_str("## Big\n");
    text.push_str(&"x".repeat(8000));
    text.push_str("\n## Small\n");
    text.push_str(&"x".repeat(2000));
    let parsed = parse_claude_md("/p/AGENTS.md", &text);
    let turns: Vec<TurnRecord> = (0..3)
        .map(|i| {
            let u = usage(50, 10, parsed.tokens + 1000);
            make_turn("s-cm-sec", &format!("m-{i}"), i, u)
        })
        .collect();
    let files = vec![parsed];
    let result = attribute(&files, &turns);
    let find = |h: &str| {
        result
            .section_costs
            .iter()
            .find(|s| files[s.file].sections[s.section].heading == h)
            .unwrap()
    };
    let (big, small) = (find("## Big"), find("## Small"));
    let total = total_cost(&result);
    let (big_cost, small_cost) = (total * share(&result, big), total * share(&result, small));
    assert!(big_cost > small_cost);
    let ratio = big_cost / small_cost;
    let tokens = |s: &SectionCost| files[s.file].sections[s.section].tokens as f64;
    let token_ratio = tokens(big) / tokens(small);
    assert!((ratio - token_ratio).abs() / token_ratio < 0.05);
}

#[test]
fn skips_turns_where_cache_read_is_below_claude_md_size() {
    let mut text = String::from("## Big\n");
    text.push_str(&"x".repeat(40_000));
    let parsed = parse_claude_md("/p/AGENTS.md", &text);
    let turns = vec![
        make_turn("s-cm-skip", "m0", 0, usage(5000, 10, 100)),
        make_turn("s-cm-skip", "m1", 1, usage(50, 10, parsed.tokens + 500)),
    ];
    let result = attribute(&[parsed], &turns);
    assert_eq!(result.session_costs[0].riding_turns, 1);
}

#[test]
fn returns_zero_cost_when_claude_md_is_empty() {
    let parsed = parse_claude_md("/p/AGENTS.md", "");
    let turns = vec![make_turn("s", "m", 0, usage(0, 0, 0))];
    let result = attribute(&[parsed], &turns);
    assert_eq!(total_cost(&result), 0.0);
    assert_eq!(result.session_costs.len(), 0);
}

#[test]
fn includes_zero_cost_sessions_in_session_count_so_avg_p95_are_not_biased_upward() {
    let mut text = String::from("## Body\n");
    text.push_str(&"x".repeat(4000));
    let parsed = parse_claude_md("/p/AGENTS.md", &text);
    let turns = vec![
        make_turn("s-A", "m", 0, usage(10, 10, parsed.tokens + 500)),
        make_turn("s-B", "m", 0, usage(500, 10, 0)),
    ];
    let result = attribute(&[parsed], &turns);
    assert_eq!(result.session_costs.len(), 2);
    let find = |id: &str| {
        result
            .session_costs
            .iter()
            .position(|s| s.session_id == id)
            .unwrap()
    };
    let b = find("s-B");
    assert_eq!(session_cost(&result, b), 0.0);
    assert_eq!(result.session_costs[b].riding_turns, 0);
    let a = find("s-A");
    let avg = total_cost(&result) / result.session_costs.len() as f64;
    assert!((avg - session_cost(&result, a) / 2.0).abs() < 1e-9);
}

#[test]
fn sum_of_section_costs_stays_below_or_equal_total_cost() {
    let mut parts = String::new();
    for i in 0..20 {
        parts.push_str(&format!("## Section {i}\n{}\n", "x".repeat(123)));
    }
    let parsed = parse_claude_md("/p/AGENTS.md", &parts);
    let turns: Vec<TurnRecord> = (0..5)
        .map(|i| make_turn("s-sum", &format!("m{i}"), i, usage(10, 10, parsed.tokens + 500)))
        .collect();
    let result = attribute(&[parsed], &turns);
    let total = total_cost(&result);
    let shares: f64 = result.section_costs.iter().map(|s| share(&result, s)).sum();
    assert!(shares * total <= total + 1e-9);
    assert!((shares - 1.0).abs() < 1e-9);
}

#[test]
fn emits_a_trim_diff_for_the_largest_section_that_hand_applies_cleanly() {
    let mut text = String::new();
    text.push_str("## Big\n");
    text.push_str(&"x".repeat(8000));
    text.push_str("\n## Small\n");
    text.push_str(&"x".repeat(2000));
    let parsed = parse_claude_md("/p/AGENTS.md", &text);
    let u = usage(50, 10, parsed.tokens + 1000);
    let turns = vec![make_turn("s-cm-advise", "m0", 0, u)];
    let files = vec![parsed];
    let attribution = attribute(&files, &turns);
    let recs = build_trim_recommendations(&attribution.section_costs, 1);
    assert_eq!(recs.len(), 1);
    let row = &attribution.section_costs[recs[0]];
    let section = &files[row.file].sections[row.section];
    assert_eq!(section.heading, "## Big");
    assert!(share(&attribution, row) > 0.0);
    let shown = display_path("/p/AGENTS.md");
    let diff = render_unified_diff_for_recommendation(&shown, &text, section, "$0.01", "$0.02");
    assert!(diff.contains("# TRIM: ## Big"));
    assert!(diff.contains("--- a/"));
    assert!(diff.contains("+++ b/"));
    assert!(diff.contains("@@ -1,2 +1,0 @@"));
}

#[test]
fn emits_a_project_relative_posix_path_in_the_diff_header_when_base_dir_is_given() {
    let text = "## Only\nbody\n";
    let parsed = parse_claude_md("/home/u/repo/AGENTS.md", text);
    let u = usage(10, 10, parsed.tokens + 100);
    let turns = vec![make_turn("s", "m", 0, u)];
    let files = vec![parsed];
    let attribution = attribute(&files, &turns);
    let recs = build_trim_recommendations(&attribution.section_costs, 1);
    let row = &attribution.section_costs[recs[0]];
    let section = &files[row.file].sections[row.section];
    let relative = "/home/u/repo/AGENTS.md".strip_prefix("/home/u/repo").unwrap();
    let shown = display_path(relative);
    let diff = render_unified_diff_for_recommendation(&shown, text, section, "$0.01", "$0.02");
    assert!(diff.contains("--- a/AGENTS.md"));
    assert!(diff.contains("+++ b/AGENTS.md"));
    assert!(!diff.contains("a//"));
}

#[test]
fn a_turn_whose_model_has_no_price_rides_but_is_not_charged() {
    let parsed = parse_claude_md("/p/f.md", "## A\nbody");
    let turns = vec![
        make_turn("s", "m0", 0, usage(1, 1, 500)),
        make_turn("s", "m1", 1, usage(1, 1, 500)),
    ];
    let r = attribute_claude_md_refs(&[parsed], &turns, &vec![0, 1], &[true, false], &[true, false]);
    assert_eq!(r.session_costs[0].cost_turns, vec![0]);
    assert_eq!(r.session_costs[0].total_turns, 2);
}

#[test]
fn tokens_are_a_quarter_of_the_bytes_rounded_up() {
    let parsed = parse_claude_md("/p/f.md", "## Ab\nxyz");
    assert_eq!(parsed.bytes, 9);
    assert_eq!(parsed.tokens, 3);
    assert_eq!(parsed.sections[0].bytes, 9);
}

#[test]
fn headings_are_found_with_line_level_and_text() {
    let text = ["# One", "body", "```", "## not this", "```", "### Three  ###", "#nor this"];
    let lines: Vec<String> = text.iter().map(|l| l.to_string()).collect();
    let found: Vec<(u64, u32, String)> = find_headings(&lines)
        .into_iter()
        .map(|h| (h.line, h.level, h.text))
        .collect();
    assert_eq!(found.len(), 2);
    assert_eq!(found[0], (1, 1, "# One".to_string()));
    assert_eq!((found[1].0, found[1].1), (6, 3));
}

fn three_sections() -> ParsedClaudeMd {
    let text = format!("## A\n{}\n## B\n{}\n## C\n{}\n", "x".repeat(10), "y".repeat(90), "z".repeat(40));
    parse_claude_md("/p/f.md", &text)
}

fn headings(file: &ParsedClaudeMd, rows: &[SectionCost]) -> Vec<String> {
    rows.iter().map(|s| file.sections[s.section].heading.clone()).collect()
}

#[test]
fn the_dearest_section_comes_first_wherever_it_stands() {
    let files = vec![three_sections()];
    let turns = vec![make_turn("s", "m0", 0, usage(1, 1, files[0].tokens))];
    let r = attribute(&files, &turns);
    assert_eq!(headings(&files[0], &r.section_costs), vec!["## B", "## C", "## A"]);
    let recs = build_trim_recommendations(&r.section_costs, 2);
    let rows: Vec<SectionCost> = recs.iter().map(|i| r.section_costs[*i]).collect();
    assert_eq!(headings(&files[0], &rows), vec!["## B", "## C"]);
}

#[test]
fn sections_that_cost_nothing_stay_in_the_order_of_the_file() {
    let files = vec![three_sections()];
    let cold = vec![make_turn("s", "m0", 0, usage(1, 1, files[0].tokens - 1))];
    let r = attribute(&files, &cold);
    assert_eq!(headings(&files[0], &r.section_costs), vec!["## A", "## B", "## C"]);
    let warm = vec![make_turn("s", "m0", 0, usage(1, 1, files[0].tokens))];
    let free = attribute_claude_md_refs(&files, &warm, &vec![0], &[true], &[false]);
    assert_eq!(free.session_costs[0].riding_turns, 1);
    assert_eq!(headings(&files[0], &free.section_costs), vec!["## A", "## B", "## C"]);
}
