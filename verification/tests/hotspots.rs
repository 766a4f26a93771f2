use relayburn_analyze::cost::{options_for_source, reasoning_tariff, ReasoningMode, ReasoningTariff};
use relayburn_analyze::hotspots::{
    attribute_hotspots, AttributionMethod, BySession, SessionAttribution, Share, ToolRow,
};
use relayburn_analyze::records::{
    ContentKind, ContentRecord, ContentToolResult, SourceKind, ToolCall, ToolResultEventRecord,
    ToolResultEventSource, ToolResultStatus, TurnRecord, Usage, UserTurnBlock, UserTurnBlockKind,
    UserTurnRecord,
};
use relayburn_analyze::rollups::{
    aggregate_by_bash, aggregate_by_bash_verb, aggregate_by_file, aggregate_by_mcp_server,
    aggregate_by_subagent, parse_mcp_tool_name, rank_bash, rank_bash_verbs, rank_files,
    rank_mcp_servers, rank_subagents, top_examples, Example, TOP_EXAMPLES,
};

struct Rates {
    input: f64,
    output: f64,
    cache_read: f64,
}

fn rates(model: &str) -> Rates {
    match model {
        "haiku-4-5" => Rates {
            input: 1.0,
            output: 5.0,
            cache_read: 0.1,
        },
        _ => Rates {
            input: 3.0,
            output: 15.0,
            cache_read: 0.3,
        },
    }
}

fn usage_of(input: u64, output: u64, cache_read: u64) -> Usage {
    Usage {
        input,
        output,
        reasoning: 0,
        cache_read,
        cache_create_5m: 0,
        cache_create_1h: 0,
    }
}

fn turn(session: &str, i: u64, model: &str, usage: Usage, calls: Vec<ToolCall>) -> TurnRecord {
    TurnRecord {
        source: SourceKind::ClaudeCode,
        session_id: session.to_string(),
        message_id: format!("msg-{i}"),
        turn_index: i,
        ts: "2026-04-20T00:00:00.000Z".to_string(),
        model: model.to_string(),
        project: None,
        project_key: None,
        usage,
        tool_calls: calls,
        edit_retries: 0,
        subagent: None,
        activity: None,
        retries: None,
        has_edits: None,
        fidelity: None,
    }
}

fn call(id: &str, name: &str, target: &str, args_hash: &str) -> ToolCall {
    ToolCall {
        id: id.to_string(),
        name: name.to_string(),
        common_name: name.to_string(),
        target: Some(target.to_string()),
        args_hash: args_hash.to_string(),
        is_error: None,
        edit_pre_hash: None,
        edit_post_hash: None,
        skill_name: None,
    }
}

fn read(id: &str, target: &str) -> ToolCall {
    call(id, "Read", target, &format!("Read:{target}"))
}

fn sized(session: &str, results: &[(&str, usize)]) -> Vec<BySession<ContentRecord>> {
    vec![BySession {
        session_id: session.to_string(),
        records: results
            .iter()
            .map(|(id, tokens)| ContentRecord {
                session_id: session.to_string(),
                message_id: format!("m-{id}"),
                kind: ContentKind::ToolResult,
                text: None,
                tool_use: None,
                tool_result: Some(ContentToolResult {
                    tool_use_id: id.to_string(),
                    content: "x".repeat(tokens * 4),
                    is_error: None,
                }),
            })
            .collect(),
    }]
}

fn blocks(session: &str, results: &[(&str, u64, u64)]) -> Vec<BySession<UserTurnRecord>> {
    vec![BySession {
        session_id: session.to_string(),
        records: vec![UserTurnRecord {
            session_id: session.to_string(),
            user_uuid: "u-1".to_string(),
            ts: "2026-04-20T00:00:00.500Z".to_string(),
            preceding_message_id: Some("msg-0".to_string()),
            following_message_id: Some("msg-1".to_string()),
            blocks: results
                .iter()
                .map(|(id, byte_len, approx_tokens)| UserTurnBlock {
                    kind: UserTurnBlockKind::ToolResult,
                    tool_use_id: Some(id.to_string()),
                    byte_len: *byte_len,
                    approx_tokens: *approx_tokens,
                    is_error: None,
                })
                .collect(),
        }],
    }]
}

fn attribute(
    turns: &[TurnRecord],
    content: &[BySession<ContentRecord>],
    users: &[BySession<UserTurnRecord>],
) -> Vec<SessionAttribution> {
    attribute_hotspots(turns, &vec![true; turns.len()], content, users, &[])
}

fn tokens(s: &Share) -> f64 {
    s.pool as f64 * s.weight as f64 / s.total as f64
}

fn initial_tokens(r: &ToolRow) -> f64 {
    r.initial.as_ref().map(tokens).unwrap_or(0.0)
}

fn riding_tokens(r: &ToolRow) -> f64 {
    r.rides.iter().map(tokens).sum()
}

fn initial_cost(turns: &[TurnRecord], r: &ToolRow) -> f64 {
    match &r.initial {
        Some(s) => tokens(s) / 1_000_000.0 * rates(&turns[s.turn].model).input,
        None => 0.0,
    }
}

fn riding_cost(turns: &[TurnRecord], r: &ToolRow) -> f64 {
    let one = |s: &Share| tokens(s) / 1_000_000.0 * rates(&turns[s.turn].model).cache_read;
    r.rides.iter().map(one).sum()
}

fn cost(turns: &[TurnRecord], r: &ToolRow) -> f64 {
    initial_cost(turns, r) + riding_cost(turns, r)
}

fn cost_at(turns: &[TurnRecord], rows: &[ToolRow], at: &[usize]) -> f64 {
    at.iter().map(|i| cost(turns, &rows[*i])).sum()
}

fn row<'a>(rows: &'a [ToolRow], id: &str) -> &'a ToolRow {
    rows.iter().find(|r| r.tool_use_id == id).unwrap()
}

const M: &str = "sonnet-4-6";

#[test]
fn attributes_persistence_of_8k_read_across_20_ride_along_turns_within_10_pct() {
    const READ_TOKENS: u64 = 8000;
    let id = "s-hotspots-1";
    let mut turns = vec![
        turn(id, 0, M, usage_of(200, 50, 0), vec![read("tu_read_1", "/src/big.ts")]),
        turn(id, 1, M, usage_of(READ_TOKENS, 30, 250), vec![]),
    ];
    for i in 2..=21u64 {
        turns.push(turn(id, i, M, usage_of(50, 30, READ_TOKENS + 2000), vec![]));
    }
    let r = attribute(&turns, &sized(id, &[("tu_read_1", READ_TOKENS as usize)]), &[]);
    assert_eq!(r[0].rows.len(), 1);
    let a = &r[0].rows[0];
    assert_eq!(a.tool_use_id, "tu_read_1");
    let each = READ_TOKENS as f64 / 1_000_000.0;
    let expected = each * rates(M).input + 20.0 * each * rates(M).cache_read;
    assert!((cost(&turns, a) - expected).abs() <= expected * 0.10);
    assert_eq!(a.rides.len(), 20);
}

#[test]
fn aggregates_by_file_and_ranks_most_expensive_read_first() {
    let id = "s-files";
    let turns = vec![
        turn(id, 0, M, usage_of(0, 0, 0), vec![read("tu_b", "/small.ts"), read("tu_a", "/big.ts")]),
        turn(id, 1, M, usage_of(5200, 5, 0), vec![]),
        turn(id, 2, M, usage_of(100, 5, 5700), vec![]),
        turn(id, 3, M, usage_of(100, 5, 5700), vec![]),
    ];
    let r = attribute(&turns, &sized(id, &[("tu_a", 5000), ("tu_b", 200)]), &[]);
    let rows = &r[0].rows;
    let files = aggregate_by_file(rows);
    assert_eq!(files.len(), 2);
    let costs: Vec<f64> = files.iter().map(|f| cost_at(&turns, rows, &f.calls.rows)).collect();
    let keys: Vec<i64> = costs.iter().map(|c| (c * 1e9) as i64).collect();
    let files = rank_files(files, &keys);
    assert_eq!(files[0].path, "/big.ts");
    assert_eq!(files[1].path, "/small.ts");
    assert!(cost_at(&turns, rows, &files[0].calls.rows) > cost_at(&turns, rows, &files[1].calls.rows));
}

#[test]
fn aggregates_by_bash_args_hash_so_repeated_commands_collapse() {
    let id = "s-bash";
    let mut turns = Vec::new();
    for i in 0..3u64 {
        let c = call(&format!("tu_b_{i}"), "Bash", "ls -la", "Bash:ls");
        turns.push(turn(id, 2 * i, M, usage_of(0, 0, 0), vec![c]));
        turns.push(turn(id, 2 * i + 1, M, usage_of(1000, 5, 0), vec![]));
    }
    let content = sized(id, &[("tu_b_0", 1000), ("tu_b_1", 1000), ("tu_b_2", 1000)]);
    let r = attribute(&turns, &content, &[]);
    let bash = aggregate_by_bash(&r[0].rows);
    assert_eq!(bash.len(), 1);
    assert_eq!(bash[0].calls.call_count, 3);
    assert_eq!(bash[0].command.as_deref(), Some("ls -la"));
}

fn bare_row(name: &str, target: Option<&str>, args_hash: &str, rides: usize) -> ToolRow {
    let ride = Share {
        turn: 0,
        weight: 1,
        total: 1,
        pool: 1,
    };
    ToolRow {
        tool_use_id: format!("tu-{args_hash}"),
        tool_name: name.to_string(),
        target: target.map(|t| t.to_string()),
        args_hash: args_hash.to_string(),
        session_id: "s".to_string(),
        emit_turn_index: 0,
        emit_ts: "2026-04-20T00:00:00.000Z".to_string(),
        model: M.to_string(),
        project: None,
        project_key: None,
        subagent_type: None,
        result_tokens: 0,
        result_bytes_estimated: true,
        output_bytes: None,
        output_truncated: None,
        initial: None,
        rides: vec![ride; rides],
    }
}

fn keyed(list: &[Example], costs: &[f64]) -> Vec<i64> {
    list.iter()
        .map(|e| (e.rows.iter().map(|i| costs[*i]).sum::<f64>() * 1e6) as i64)
        .collect()
}

#[test]
fn aggregates_bash_cost_by_normalized_verb_with_distinct_command_and_examples() {
    let status = || bare_row("Bash", Some("git status"), "git:status", 0);
    let a = || bare_row("Bash", Some("git diff src/a.ts"), "git:diff:a", 1);
    let b = || bare_row("Bash", Some("git diff src/b.ts"), "git:diff:b", 2);
    let test = bare_row("Bash", Some("pnpm run test"), "pnpm:test", 1);
    let rows = vec![status(), status(), status(), a(), a(), b(), b(), b(), test];
    let costs = [2.0, 2.0, 2.0, 5.0, 5.0, 7.0, 7.0, 7.0, 4.0];
    let verb = |v: &str| Some(v.to_string());
    let verbs: Vec<Option<String>> = (0..9)
        .map(|i| match i {
            0..=2 => verb("git status"),
            3..=7 => verb("git diff"),
            _ => verb("pnpm test"),
        })
        .collect();
    let found = aggregate_by_bash_verb(&rows, &verbs);
    let total = |at: &[usize]| at.iter().map(|i| costs[*i]).sum::<f64>();
    let keys: Vec<i64> = found.iter().map(|f| (total(&f.calls.rows) * 1e6) as i64).collect();
    let found = rank_bash_verbs(found, &keys);
    let first = &found[0];
    assert_eq!(first.verb, "git diff");
    assert_eq!(first.calls.call_count, 5);
    assert_eq!(first.distinct_commands, 2);
    assert!((total(&first.calls.rows) - 31.0).abs() < 1e-9);
    let average = first.calls.riding_turns as f64 / first.calls.call_count as f64;
    assert!((average - 1.6).abs() < 1e-9);
    assert_eq!(
        top_examples(&first.examples, &keyed(&first.examples, &costs)),
        vec!["git diff src/b.ts", "git diff src/a.ts"]
    );
    let second = &found[1];
    assert_eq!(second.verb, "git status");
    assert_eq!(second.calls.call_count, 3);
    assert_eq!(second.distinct_commands, 1);
    assert_eq!(found[2].verb, "pnpm test");
}

#[test]
fn aggregates_subagent_calls_by_subagent_type() {
    let id = "s-agent";
    let c = call("tu_a1", "Agent", "general-purpose", "Agent:gp");
    let turns = vec![
        turn(id, 0, M, usage_of(0, 0, 0), vec![c]),
        turn(id, 1, M, usage_of(2000, 10, 0), vec![]),
    ];
    let r = attribute(&turns, &sized(id, &[("tu_a1", 2000)]), &[]);
    let rows = &r[0].rows;
    let found = aggregate_by_subagent(rows);
    assert_eq!(found.len(), 1);
    assert_eq!(found[0].subagent_type, "general-purpose");
    assert_eq!(found[0].calls.call_count, 1);
    assert!(cost_at(&turns, rows, &found[0].calls.rows) > 0.0);
}

#[test]
fn aggregates_by_mcp_server_groups_by_server_segment_and_sorts_by_cost() {
    let given = [
        ("mcp__relaycast__send_dm", 2.0, 1),
        ("mcp__relaycast__send_dm", 1.5, 0),
        ("mcp__relaycast__list_channels", 0.5, 0),
        ("mcp__relaycast__react_to_message", 0.25, 0),
        ("mcp__github__get_file_contents", 1.0, 2),
        ("mcp__github__create_pull_request", 0.1, 0),
        ("Read", 99.0, 5),
        ("mcp__only_server__", 50.0, 0),
        ("mcp____tool_only", 50.0, 0),
        ("mcp__no_double_separator", 50.0, 0),
    ];
    let whole = |pool: u128| Share { turn: 0, weight: 1, total: 1, pool };
    let mut rows: Vec<ToolRow> = given
        .iter()
        .map(|(n, cost, rides)| {
            let mut row = bare_row(n, None, &format!("{n}:0"), *rides);
            row.initial = Some(whole((cost * 100.0) as u128));
            row
        })
        .collect();
    rows[0].rides = vec![Share { turn: 0, weight: 1, total: 2, pool: 425 }];
    let costs: Vec<f64> = given.iter().map(|g| g.1).collect();
    let found = aggregate_by_mcp_server(&rows);
    assert_eq!(found.len(), 2);
    let total = |at: &[usize]| at.iter().map(|i| costs[*i]).sum::<f64>();
    let keys: Vec<i64> = found.iter().map(|f| (total(&f.calls.rows) * 1e6) as i64).collect();
    let found = rank_mcp_servers(found, &keys);

    let relaycast = &found[0];
    assert_eq!(relaycast.server, "relaycast");
    assert_eq!(relaycast.calls.call_count, 4);
    assert!((total(&relaycast.calls.rows) - 4.25).abs() < 1e-9);
    let of_calls = |f: fn(&ToolRow) -> f64| {
        relaycast.calls.rows.iter().map(|i| f(&rows[*i])).sum::<f64>()
    };
    assert!((of_calls(initial_tokens) - 4.25 * 100.0).abs() < 1e-9);
    assert!((of_calls(riding_tokens) - 4.25 * 50.0).abs() < 1e-9);
    assert_eq!(relaycast.calls.riding_turns, 1);
    assert_eq!(
        top_examples(&relaycast.tools, &keyed(&relaycast.tools, &costs)),
        vec!["send_dm", "list_channels", "react_to_message"]
    );

    let github = &found[1];
    assert_eq!(github.server, "github");
    assert_eq!(github.calls.call_count, 2);
    assert!((total(&github.calls.rows) - 1.1).abs() < 1e-9);
    assert_eq!(github.calls.riding_turns, 2);
    assert_eq!(
        top_examples(&github.tools, &keyed(&github.tools, &costs)),
        vec!["get_file_contents", "create_pull_request"]
    );
}

#[test]
fn servers_come_with_the_dearest_first_whatever_came_first() {
    let rows = vec![
        bare_row("mcp__cheap__tool", None, "a", 0),
        bare_row("mcp__dear__tool", None, "b", 0),
    ];
    let found = aggregate_by_mcp_server(&rows);
    let names: Vec<String> = found.iter().map(|f| f.server.clone()).collect();
    assert_eq!(names, vec!["cheap", "dear"]);
    let ranked = rank_mcp_servers(found, &[1, 2]);
    let names: Vec<String> = ranked.iter().map(|f| f.server.clone()).collect();
    assert_eq!(names, vec!["dear", "cheap"]);
}

#[test]
fn files_commands_and_subagents_that_cost_the_same_stay_as_they_came() {
    let agent = |kind: &str, hash: &str| {
        let mut row = bare_row("Agent", None, hash, 0);
        row.subagent_type = Some(kind.to_string());
        row
    };
    let rows = vec![
        bare_row("Read", Some("/z.ts"), "a", 0),
        bare_row("Read", Some("/y.ts"), "b", 0),
        bare_row("Read", Some("/x.ts"), "c", 0),
        bare_row("Bash", Some("z"), "d", 0),
        bare_row("Bash", Some("y"), "e", 0),
        bare_row("Bash", Some("x"), "f", 0),
        agent("r", "g"),
        agent("q", "h"),
        agent("p", "i"),
    ];
    let files = rank_files(aggregate_by_file(&rows), &[4, 7, 4]);
    let paths: Vec<&str> = files.iter().map(|f| f.path.as_str()).collect();
    assert_eq!(paths, vec!["/y.ts", "/z.ts", "/x.ts"]);
    let commands = rank_bash(aggregate_by_bash(&rows), &[4, 4, 7]);
    let hashes: Vec<&str> = commands.iter().map(|c| c.args_hash.as_str()).collect();
    assert_eq!(hashes, vec!["f", "d", "e"]);
    let subagents = rank_subagents(aggregate_by_subagent(&rows), &[0, 0, 0]);
    let kinds: Vec<&str> = subagents.iter().map(|a| a.subagent_type.as_str()).collect();
    assert_eq!(kinds, vec!["r", "q", "p"]);
}

#[test]
fn verbs_and_servers_that_cost_the_same_come_by_name() {
    let rows = vec![
        bare_row("Bash", Some("z"), "a", 0),
        bare_row("Bash", Some("y"), "b", 0),
        bare_row("Bash", Some("x"), "c", 0),
        bare_row("mcp__west__tool", None, "d", 0),
        bare_row("mcp__east__tool", None, "e", 0),
    ];
    let named: Vec<Option<String>> = ["z", "y", "x", "", ""]
        .iter()
        .map(|v| if v.is_empty() { None } else { Some(v.to_string()) })
        .collect();
    let verbs = rank_bash_verbs(aggregate_by_bash_verb(&rows, &named), &[5, 5, 5]);
    let verbs: Vec<&str> = verbs.iter().map(|v| v.verb.as_str()).collect();
    assert_eq!(verbs, vec!["x", "y", "z"]);
    let servers = rank_mcp_servers(aggregate_by_mcp_server(&rows), &[5, 5]);
    let servers: Vec<&str> = servers.iter().map(|s| s.server.as_str()).collect();
    assert_eq!(servers, vec!["east", "west"]);
}

#[test]
fn no_more_than_three_examples_are_shown() {
    assert_eq!(TOP_EXAMPLES, 3);
    let list: Vec<Example> = ["d", "c", "b", "a"]
        .iter()
        .map(|name| Example { name: name.to_string(), rows: vec![] })
        .collect();
    assert_eq!(top_examples(&list, &[1, 9, 1, 1]), vec!["c", "a", "b"]);
    assert_eq!(top_examples(&list[..2].to_vec(), &[0, 0]), vec!["c", "d"]);
}

#[test]
fn falls_back_to_even_split_when_no_content_is_provided() {
    let id = "s-fallback";
    let turns = vec![
        turn(id, 0, M, usage_of(0, 0, 0), vec![read("tu_x", "/a.ts"), read("tu_y", "/b.ts")]),
        turn(id, 1, M, usage_of(4000, 5, 0), vec![]),
    ];
    let r = attribute(&turns, &[], &[]);
    assert_eq!(r[0].rows.len(), 2);
    let expected = ((4000.0 / 1_000_000.0) * rates(M).input) / 2.0;
    for a in &r[0].rows {
        assert!((initial_cost(&turns, a) - expected).abs() < 1e-9);
        assert_eq!(riding_cost(&turns, a), 0.0);
    }
    assert_eq!(r[0].method, AttributionMethod::EvenSplit);
}

#[test]
fn uses_user_turn_block_sizes_when_content_sidecar_is_unavailable() {
    let id = "s-user-turn-fallback";
    let calls = vec![read("tu_big", "/big.ts"), read("tu_small", "/small.ts")];
    let turns = vec![
        turn(id, 0, M, usage_of(0, 0, 0), calls),
        turn(id, 1, M, usage_of(4000, 5, 0), vec![]),
        turn(id, 2, M, usage_of(100, 5, 4500), vec![]),
    ];
    let users = blocks(id, &[("tu_big", 12_000, 3000), ("tu_small", 4000, 1000)]);
    let r = attribute(&turns, &[], &users);
    assert_eq!(r[0].method, AttributionMethod::Sized);
    let (big, small) = (row(&r[0].rows, "tu_big"), row(&r[0].rows, "tu_small"));
    assert!((initial_tokens(big) - 3000.0).abs() < 1e-9);
    assert!((initial_tokens(small) - 1000.0).abs() < 1e-9);
    assert!((riding_tokens(big) - 3000.0).abs() < 1e-9);
    assert!((riding_tokens(small) - 1000.0).abs() < 1e-9);
    assert!(cost(&turns, big) > cost(&turns, small));
}

#[test]
fn prefers_user_turn_block_sizes_over_content_sidecar_estimates() {
    let id = "s-sidecar-primary";
    let turns = vec![
        turn(id, 0, M, usage_of(0, 0, 0), vec![read("tu_read", "/file.ts")]),
        turn(id, 1, M, usage_of(10_000, 5, 0), vec![]),
    ];
    let users = blocks(id, &[("tu_read", 36_000, 9000)]);
    let r = attribute(&turns, &sized(id, &[("tu_read", 1000)]), &users);
    assert_eq!(r[0].method, AttributionMethod::Sized);
    assert!((initial_tokens(&r[0].rows[0]) - 9000.0).abs() < 1e-9);
}

#[test]
fn caps_sibling_initial_cost_at_next_turns_actual_new_content() {
    let id = "s-cap";
    let turns = vec![
        turn(id, 0, M, usage_of(0, 0, 0), vec![read("tu_big", "/b.ts"), read("tu_med", "/m.ts")]),
        turn(id, 1, M, usage_of(5000, 5, 0), vec![]),
    ];
    let r = attribute(&turns, &sized(id, &[("tu_big", 6000), ("tu_med", 4000)]), &[]);
    let summed: f64 = r[0].rows.iter().map(initial_tokens).sum();
    assert!(summed <= 5000.0 + 1e-6);
    assert!((initial_tokens(row(&r[0].rows, "tu_big")) - 3000.0).abs() < 1e-6);
    assert!((initial_tokens(row(&r[0].rows, "tu_med")) - 2000.0).abs() < 1e-6);
}

#[test]
fn caps_sibling_persistence_at_turns_actual_cache_read() {
    let id = "s-persist-cap";
    let turns = vec![
        turn(id, 0, M, usage_of(0, 0, 0), vec![read("tu_a", "/a.ts"), read("tu_b", "/b.ts")]),
        turn(id, 1, M, usage_of(8000, 5, 0), vec![]),
        turn(id, 2, M, usage_of(50, 5, 5000), vec![]),
    ];
    let r = attribute(&turns, &sized(id, &[("tu_a", 4000), ("tu_b", 4000)]), &[]);
    let summed: f64 = r[0].rows.iter().map(riding_tokens).sum();
    assert!(summed <= 5000.0 + 1e-6);
    for a in &r[0].rows {
        assert!((riding_tokens(a) - 2500.0).abs() < 1e-6);
    }
}

#[test]
fn uses_paying_turns_model_rate_not_emit_turns() {
    let id = "s-cross-model";
    let haiku = rates("haiku-4-5");
    let turns = vec![
        turn(id, 0, M, usage_of(0, 0, 0), vec![read("tu_x", "/x.ts")]),
        turn(id, 1, "haiku-4-5", usage_of(4000, 5, 0), vec![]),
        turn(id, 2, "haiku-4-5", usage_of(50, 5, 4100), vec![]),
    ];
    let r = attribute(&turns, &sized(id, &[("tu_x", 4000)]), &[]);
    let a = &r[0].rows[0];
    let each = 4000.0 / 1_000_000.0;
    assert!((initial_cost(&turns, a) - each * haiku.input).abs() < 1e-9);
    assert!((riding_cost(&turns, a) - each * haiku.cache_read).abs() < 1e-9);
}

fn turn_cost(t: &TurnRecord) -> f64 {
    let r = rates(&t.model);
    let reasoning = match reasoning_tariff(
        options_for_source(t.source),
        ReasoningMode::SameAsOutput,
        false,
    ) {
        ReasoningTariff::Unbilled => 0.0,
        _ => t.usage.reasoning as f64 * r.output,
    };
    (t.usage.input as f64 * r.input + t.usage.output as f64 * r.output + reasoning) / 1_000_000.0
}

#[test]
fn session_grand_honors_source_aware_reasoning_for_codex() {
    let mut u = usage_of(1000, 500, 0);
    u.reasoning = 200;
    let mut t = turn("s-codex-reasoning", 0, "gpt-5-codex", u, vec![]);
    t.source = SourceKind::Codex;
    let turns = vec![t];
    let r = attribute(&turns, &[], &[]);
    let grand: f64 = r[0].turns.iter().map(|i| turn_cost(&turns[*i])).sum();
    let rate = rates("gpt-5-codex");
    let expected = (1000.0 / 1_000_000.0) * rate.input + (500.0 / 1_000_000.0) * rate.output;
    assert!((grand - expected).abs() < 1e-9);
}

#[test]
fn grand_total_plus_unattributed_equals_session_grand_within_rounding() {
    let id = "s-totals";
    let turns = vec![
        turn(id, 0, M, usage_of(100, 50, 0), vec![read("tu_z", "/z.ts")]),
        turn(id, 1, M, usage_of(2000, 30, 0), vec![]),
    ];
    let r = attribute(&turns, &sized(id, &[("tu_z", 2000)]), &[]);
    let grand: f64 = r[0].turns.iter().map(|i| turn_cost(&turns[*i])).sum();
    let attributed: f64 = r[0].rows.iter().map(|a| cost(&turns, a)).sum();
    assert!(attributed <= grand + 1e-9);
    assert_eq!(r[0].turns, vec![0, 1]);
}

fn event(id: &str, i: u64, bytes: u64, truncated: bool) -> ToolResultEventRecord {
    ToolResultEventRecord {
        session_id: "s-bytes".to_string(),
        message_id: Some("msg-0".to_string()),
        tool_use_id: id.to_string(),
        call_index: Some(0),
        event_index: i,
        ts: Some("2026-05-25T00:00:00.500Z".to_string()),
        status: ToolResultStatus::Completed,
        event_source: ToolResultEventSource::ToolResult,
        output_bytes: Some(bytes),
        output_truncated: Some(truncated),
    }
}

#[test]
fn aggregations_track_output_bytes_so_byte_ranking_inverts_token_ranking() {
    const BASH_BYTES: u64 = 1_000_000;
    const READ_BYTES: u64 = 1_000;
    let id = "s-bytes";
    let bash_call = call("tu_bash", "Bash", "find / -name foo", "Bash:find");
    let turns = vec![
        turn(id, 0, M, usage_of(0, 0, 0), vec![bash_call, read("tu_read", "/big.ts")]),
        turn(id, 1, M, usage_of(5000, 5, 0), vec![]),
    ];
    let users = blocks(id, &[("tu_bash", 800, 200), ("tu_read", 16_000, 4000)]);
    let events = vec![BySession {
        session_id: id.to_string(),
        records: vec![
            event("tu_bash", 0, BASH_BYTES, true),
            event("tu_read", 1, READ_BYTES, false),
        ],
    }];
    let r = attribute_hotspots(&turns, &[true, true], &[], &users, &events);
    let rows = &r[0].rows;
    assert_eq!(row(rows, "tu_bash").output_bytes, Some(BASH_BYTES));
    assert_eq!(row(rows, "tu_bash").output_truncated, Some(true));
    assert_eq!(row(rows, "tu_read").output_bytes, Some(READ_BYTES));
    assert_eq!(row(rows, "tu_read").output_truncated, Some(false));
    let files = aggregate_by_file(rows);
    assert_eq!(files.len(), 1, "Read is the only file-touching tool");
    let bash = aggregate_by_bash(rows);
    assert_eq!(bash.len(), 1);
    let (f, b) = (&files[0].calls, &bash[0].calls);
    assert!(cost_at(&turns, rows, &f.rows) > cost_at(&turns, rows, &b.rows));
    assert_eq!(f.total_output_bytes, READ_BYTES);
    assert_eq!(f.max_output_bytes, READ_BYTES);
    assert_eq!(f.truncated_count, 0);
    assert_eq!(b.total_output_bytes, BASH_BYTES);
    assert_eq!(b.max_output_bytes, BASH_BYTES);
    assert_eq!(b.truncated_count, 1);
    assert!(b.total_output_bytes > f.total_output_bytes);
}

#[test]
fn mcp_names_have_a_server_and_a_tool() {
    let parts = |a: &str, b: &str| Some((a.to_string(), b.to_string()));
    assert_eq!(parse_mcp_tool_name("mcp__a__b__c"), parts("a", "b__c"));
    assert_eq!(parse_mcp_tool_name("mcp__a"), None);
    assert_eq!(parse_mcp_tool_name("Read"), None);
}

#[test]
fn turns_without_a_price_are_not_charged() {
    let id = "s";
    let turns = vec![
        turn(id, 0, M, usage_of(0, 0, 0), vec![read("tu", "/a.ts")]),
        turn(id, 1, "unknown", usage_of(1000, 5, 0), vec![]),
    ];
    let r = attribute_hotspots(&turns, &[true, false], &sized(id, &[("tu", 500)]), &[], &[]);
    assert_eq!(r[0].rows[0].initial, None);
}
