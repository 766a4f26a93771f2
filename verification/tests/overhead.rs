use relayburn_analyze::claude_md::{parse_claude_md, ParsedClaudeMd};
use relayburn_analyze::md_cost::ClaudeMdAttributionResult;
use relayburn_analyze::overhead::{
    attribute_overhead, describe_applies_to, find_overhead_files, parse_overhead_bytes, Candidate,
    DirProbe, DiscoveryProbe, FileIdentity, OverheadFile, OverheadFileKind, OverheadFileScope,
    ParsedOverheadFile, Probe, DEFAULT_CODEX_PROJECT_DOC_MAX_BYTES,
};
use relayburn_analyze::records::{SourceKind, SourceNames, TurnRecord, Usage};

const CACHE_READ: f64 = 0.30;

fn mk_turn(session: &str, idx: u64, source: SourceKind, cache_read: u64) -> TurnRecord {
    TurnRecord {
        source,
        session_id: session.to_string(),
        message_id: format!("m-{}", idx),
        turn_index: idx,
        ts: "2026-04-23T00:00:00.000Z".to_string(),
        model: "sonnet-4-6".to_string(),
        project: None,
        project_key: None,
        usage: Usage {
            input: 10,
            output: 10,
            reasoning: 0,
            cache_read,
            cache_create_5m: 0,
            cache_create_1h: 0,
        },
        tool_calls: Vec::new(),
        edit_retries: 0,
        subagent: None,
        activity: None,
        retries: None,
        has_edits: None,
        fidelity: None,
    }
}

/// A tree of files: paths with what stands there, and which file that is.
struct Tree {
    files: Vec<(String, String, u64)>,
    git: Vec<String>,
}

impl Tree {
    fn new() -> Tree {
        Tree {
            files: Vec::new(),
            git: Vec::new(),
        }
    }

    fn write(&mut self, path: &str, text: &str) {
        let inode = self.files.len() as u64 + 1;
        self.files.push((path.to_string(), text.to_string(), inode));
    }

    fn link(&mut self, path: &str, to: &str) {
        let (_, text, inode) = self.files.iter().find(|f| f.0 == to).unwrap().clone();
        self.files.push((path.to_string(), text, inode));
    }

    fn candidate(&self, path: String) -> Candidate {
        let probe = match self.files.iter().find(|f| f.0 == path) {
            Some((_, text, inode)) => Probe::Read {
                bytes: text.as_bytes().to_vec(),
                identity: FileIdentity::Unix {
                    device: 1,
                    inode: *inode,
                },
            },
            None => Probe::Missing,
        };
        Candidate { path, probe }
    }

    fn discover(&self, home: &str, cwd: &str) -> Vec<OverheadFile> {
        let mut dirs = Vec::new();
        let mut claude_dirs = 0;
        let mut dir = cwd.to_string();
        loop {
            dirs.push(DirProbe {
                has_git: self.git.contains(&dir),
                claude: self.candidate(format!("{dir}/MEMO.md")),
                dot_claude: self.candidate(format!("{dir}/.memo/MEMO.md")),
                claude_local: self.candidate(format!("{dir}/MEMO.local.md")),
                agents_override: self.candidate(format!("{dir}/AGENTS.override.md")),
                agents: self.candidate(format!("{dir}/AGENTS.md")),
            });
            if dir == home {
                claude_dirs = dirs.len();
            }
            match dir.rfind('/') {
                Some(at) => dir.truncate(at),
                None => break,
            }
        }
        find_overhead_files(&DiscoveryProbe {
            user_claude: self.candidate(format!("{home}/.memo/MEMO.md")),
            codex_override: self.candidate(format!("{home}/.codex/AGENTS.override.md")),
            codex_agents: self.candidate(format!("{home}/.codex/AGENTS.md")),
            opencode_agents: self.candidate(format!("{home}/.config/opencode/AGENTS.md")),
            dirs,
            claude_dirs,
        })
    }
}

fn find<'a>(files: &'a [OverheadFile], path: &str) -> Option<&'a OverheadFile> {
    files.iter().find(|f| f.path == path)
}

#[test]
fn discovery_matches_harness_startup_chains_scopes_and_stable_order() {
    let mut t = Tree::new();
    t.git.push("/h/workspace/repo".to_string());
    t.write("/h/.memo/MEMO.md", "global memo");
    t.write("/h/.codex/AGENTS.md", "global codex");
    t.write("/h/.config/opencode/AGENTS.md", "global opencode");
    t.write("/h/MEMO.md", "workspace ancestor");
    t.write("/h/workspace/repo/MEMO.md", "root memo");
    t.write("/h/workspace/repo/.memo/MEMO.md", "dot memo");
    t.write("/h/workspace/repo/MEMO.local.md", "root local");
    t.write("/h/workspace/repo/packages/api/MEMO.md", "cwd memo");
    t.write("/h/workspace/repo/packages/api/MEMO.local.md", "cwd local");
    t.write("/h/workspace/repo/AGENTS.md", "root agents");
    t.write("/h/workspace/repo/packages/api/AGENTS.md", "cwd agents");

    let files = t.discover("/h", "/h/workspace/repo/packages/api");
    let paths: Vec<&str> = files.iter().map(|f| f.path.as_str()).collect();
    assert_eq!(
        paths,
        vec![
            "/h/.memo/MEMO.md",
            "/h/.codex/AGENTS.md",
            "/h/.config/opencode/AGENTS.md",
            "/h/MEMO.md",
            "/h/workspace/repo/MEMO.md",
            "/h/workspace/repo/.memo/MEMO.md",
            "/h/workspace/repo/MEMO.local.md",
            "/h/workspace/repo/packages/api/MEMO.md",
            "/h/workspace/repo/packages/api/MEMO.local.md",
            "/h/workspace/repo/AGENTS.md",
            "/h/workspace/repo/packages/api/AGENTS.md",
        ]
    );
    assert_eq!(files[0].scope, OverheadFileScope::User);
    assert_eq!(files[0].applies_to, vec![SourceKind::ClaudeCode]);
    assert_eq!(files[1].applies_to, vec![SourceKind::Codex]);
    assert_eq!(files[2].applies_to, vec![SourceKind::Opencode]);
    assert_eq!(files[3].scope, OverheadFileScope::Ancestor);
    assert!(files[4..].iter().all(|f| f.scope == OverheadFileScope::Project));
    for file in &files[9..] {
        assert_eq!(file.applies_to, vec![SourceKind::Codex, SourceKind::Opencode]);
    }
}

#[test]
fn codex_and_opencode_stop_at_git_root_but_claude_walks_above_it() {
    let mut t = Tree::new();
    t.git.push("/h/outer/repo".to_string());
    t.write("/h/outer/AGENTS.md", "outside agents");
    t.write("/h/outer/MEMO.md", "outside memo");
    t.write("/h/outer/repo/AGENTS.md", "inside agents");
    let files = t.discover("/h", "/h/outer/repo/sub");
    assert!(find(&files, "/h/outer/AGENTS.md").is_none());
    let file = find(&files, "/h/outer/MEMO.md").unwrap();
    assert_eq!(file.scope, OverheadFileScope::Ancestor);
    assert_eq!(file.applies_to, vec![SourceKind::ClaudeCode]);
}

#[test]
fn no_git_root_limits_codex_and_opencode_to_requested_directory() {
    let mut t = Tree::new();
    t.write("/h/plain/AGENTS.md", "parent agents");
    t.write("/h/plain/child/AGENTS.md", "cwd agents");
    let files = t.discover("/h", "/h/plain/child");
    assert!(find(&files, "/h/plain/AGENTS.md").is_none());
    let file = find(&files, "/h/plain/child/AGENTS.md").unwrap();
    assert_eq!(file.applies_to, vec![SourceKind::Codex, SourceKind::Opencode]);
}

#[test]
fn codex_override_and_opencode_filename_class_precedence_stay_distinct() {
    let mut t = Tree::new();
    t.git.push("/h/repo".to_string());
    t.write("/h/repo/AGENTS.override.md", "codex override");
    t.write("/h/repo/AGENTS.md", "shared agents");
    t.write("/h/repo/MEMO.md", "memo fallback");
    let files = t.discover("/h", "/h/repo");
    let applies = |p: &str| find(&files, p).unwrap().applies_to.clone();
    assert_eq!(applies("/h/repo/AGENTS.override.md"), vec![SourceKind::Codex]);
    assert_eq!(applies("/h/repo/AGENTS.md"), vec![SourceKind::Opencode]);
    assert_eq!(applies("/h/repo/MEMO.md"), vec![SourceKind::ClaudeCode]);
}

#[test]
fn empty_opencode_global_blocks_claude_fallback_without_adding_a_row() {
    let mut t = Tree::new();
    t.write("/h/.memo/MEMO.md", "memo global");
    t.write("/h/.config/opencode/AGENTS.md", "   \n");
    let files = t.discover("/h", "/h/repo");
    assert_eq!(files.len(), 1);
    assert_eq!(files[0].applies_to, vec![SourceKind::ClaudeCode]);
    assert_eq!(files[0].scope, OverheadFileScope::User);
}

#[test]
fn empty_codex_project_override_blocks_same_directory_agents_file() {
    let mut t = Tree::new();
    t.git.push("/h/repo".to_string());
    t.write("/h/repo/AGENTS.override.md", "  \n");
    t.write("/h/repo/AGENTS.md", "opencode still loads this");
    let files = t.discover("/h", "/h/repo");
    assert_eq!(files.len(), 1);
    assert_eq!(files[0].applies_to, vec![SourceKind::Opencode]);
}

#[test]
fn inactive_descendants_are_excluded_but_become_active_when_used_as_cwd() {
    let mut t = Tree::new();
    t.git.push("/h/repo".to_string());
    t.write("/h/repo/MEMO.md", "root");
    t.write("/h/repo/services/payments/MEMO.md", "nested");
    let nested = "/h/repo/services/payments/MEMO.md";
    assert!(find(&t.discover("/h", "/h/repo"), nested).is_none());
    assert!(find(&t.discover("/h", "/h/repo/services/payments"), nested).is_some());
}

#[test]
fn codex_project_chain_obeys_aggregate_32k_byte_budget() {
    let mut t = Tree::new();
    t.git.push("/h/repo".to_string());
    let long = "a".repeat(DEFAULT_CODEX_PROJECT_DOC_MAX_BYTES - 8);
    t.write("/h/repo/AGENTS.md", &long);
    t.write("/h/repo/sub/AGENTS.md", "12345678ignored-tail");
    let files = t.discover("/h", "/h/repo/sub");
    let file = find(&files, "/h/repo/sub/AGENTS.md").unwrap();
    assert_eq!(file.content_bytes, 8);
    assert_eq!(file.applies_to, vec![SourceKind::Codex, SourceKind::Opencode]);
    let parsed = parse_overhead_bytes(&file.path, b"12345678ignored-tail", file.content_bytes);
    assert_eq!(parsed.bytes, 8);
}

#[test]
fn physical_identity_deduplicates_claude_symlink_and_hardlink_aliases() {
    let mut t = Tree::new();
    t.git.push("/h/repo".to_string());
    t.write("/h/repo/MEMO.md", "same physical file");
    t.link("/h/repo/.memo/MEMO.md", "/h/repo/MEMO.md");
    t.link("/h/repo/MEMO.local.md", "/h/repo/MEMO.md");
    let files = t.discover("/h", "/h/repo");
    let memos: Vec<&OverheadFile> = files
        .iter()
        .filter(|f| f.kind == OverheadFileKind::ClaudeMd)
        .collect();
    assert_eq!(memos.len(), 1);
    assert_eq!(memos[0].applies_to, vec![SourceKind::ClaudeCode, SourceKind::Opencode]);
}

fn parsed_file(
    kind: OverheadFileKind,
    path: &str,
    applies_to: Vec<SourceKind>,
    parsed: &ParsedClaudeMd,
) -> ParsedOverheadFile {
    ParsedOverheadFile {
        file: OverheadFile {
            kind,
            path: path.to_string(),
            scope: OverheadFileScope::Project,
            applies_to,
            content_bytes: usize::MAX,
        },
        parsed: parsed.clone(),
    }
}

fn memo_and_agents(memo: &ParsedClaudeMd, agents: &ParsedClaudeMd) -> Vec<ParsedOverheadFile> {
    let both = vec![SourceKind::Codex, SourceKind::Opencode];
    vec![
        parsed_file(OverheadFileKind::ClaudeMd, "/p/MEMO.md", vec![SourceKind::ClaudeCode], memo),
        parsed_file(OverheadFileKind::AgentsMd, "/p/AGENTS.md", both, agents),
    ]
}

fn cost(r: &ClaudeMdAttributionResult) -> f64 {
    let turns: usize = r.session_costs.iter().map(|s| s.cost_turns.len()).sum();
    turns as f64 * r.total_tokens as f64 / 1_000_000.0 * CACHE_READ
}

#[test]
fn routes_turns_by_source_and_grand_total_matches_per_file_sum_within_1e_9() {
    let memo = parse_claude_md("/p/MEMO.md", &format!("## Memo\n{}", "c".repeat(4000)));
    let agents = parse_claude_md("/p/AGENTS.md", &format!("## Agents\n{}", "a".repeat(4000)));
    let files = memo_and_agents(&memo, &agents);
    let turns = vec![
        mk_turn("s-cc", 0, SourceKind::ClaudeCode, memo.tokens + 500),
        mk_turn("s-cx", 0, SourceKind::Codex, agents.tokens + 500),
        mk_turn("s-oc", 0, SourceKind::Opencode, agents.tokens + 500),
    ];
    let result = attribute_overhead(&files, &turns, &[true, true, true], &[true, true, true]);
    assert_eq!(result.per_file.len(), 2);
    let (m, a) = (&result.per_file[0], &result.per_file[1]);
    assert_eq!(m.session_costs.len(), 1);
    assert_eq!(m.session_costs[0].session_id, "s-cc");
    let expected = (memo.tokens as f64 / 1_000_000.0) * CACHE_READ;
    assert!((cost(m) - expected).abs() <= expected * 0.10);
    assert_eq!(a.session_costs.len(), 2);
    let expected = 2.0 * (agents.tokens as f64 / 1_000_000.0) * CACHE_READ;
    assert!((cost(a) - expected).abs() <= expected * 0.10);
}

#[test]
fn total_riding_turns_takes_max_per_session_not_sum() {
    let small = parse_claude_md("/p/MEMO.md", &format!("## S\n{}", "x".repeat(2000)));
    let big = parse_claude_md("/p/.memo/MEMO.md", &format!("## B\n{}", "y".repeat(36000)));
    let kind = OverheadFileKind::ClaudeMd;
    let files = vec![
        parsed_file(kind, "/p/MEMO.md", vec![SourceKind::ClaudeCode], &small),
        parsed_file(kind, "/p/.memo/MEMO.md", vec![SourceKind::ClaudeCode], &big),
    ];
    let mut turns: Vec<TurnRecord> = Vec::new();
    for i in 0..5 {
        turns.push(mk_turn("s-both", i, SourceKind::ClaudeCode, big.tokens + 1000));
    }
    for i in 5..8 {
        turns.push(mk_turn("s-both", i, SourceKind::ClaudeCode, small.tokens + 500));
    }
    let result = attribute_overhead(&files, &turns, &[true; 8], &[true; 8]);
    assert_eq!(result.per_file[0].session_costs[0].riding_turns, 8);
    assert_eq!(result.per_file[1].session_costs[0].riding_turns, 5);
    assert_eq!(result.total_riding_turns, 8);
}

#[test]
fn a_turn_counts_once_whichever_harness_it_is_of() {
    let memo = parse_claude_md("/p/MEMO.md", &format!("## C\n{}", "x".repeat(4000)));
    let agents = parse_claude_md("/p/AGENTS.md", &format!("## A\n{}", "y".repeat(4000)));
    let files = memo_and_agents(&memo, &agents);
    let turns = vec![
        mk_turn("s", 0, SourceKind::ClaudeCode, 50_000),
        mk_turn("s", 1, SourceKind::Codex, 50_000),
        mk_turn("s", 2, SourceKind::Codex, 10),
    ];
    let result = attribute_overhead(&files, &turns, &[true; 3], &[true; 3]);
    assert_eq!(result.total_riding_turns, 2);
}

#[test]
fn does_not_cross_attribute_codex_to_claude_md() {
    let memo = parse_claude_md("/p/MEMO.md", &format!("## C\n{}", "x".repeat(4000)));
    let agents = parse_claude_md("/p/AGENTS.md", &format!("## A\n{}", "y".repeat(4000)));
    let files = memo_and_agents(&memo, &agents);
    let turns = vec![mk_turn("s-cx", 0, SourceKind::Codex, 50_000)];
    let result = attribute_overhead(&files, &turns, &[true], &[true]);
    assert_eq!(cost(&result.per_file[0]), 0.0);
    assert_eq!(result.per_file[0].session_costs.len(), 0);
}

#[test]
fn load_overhead_file_round_trips_via_find() {
    let mut t = Tree::new();
    t.write("/h/repo/AGENTS.md", "## Section\nbody");
    let files = t.discover("/h", "/h/repo");
    assert_eq!(files.len(), 1);
    let parsed = parse_overhead_bytes(&files[0].path, b"## Section\nbody", files[0].content_bytes);
    assert_eq!(parsed.sections[0].heading, "## Section");
}

#[test]
fn describe_applies_to_returns_sorted_csv() {
    let names = SourceNames {
        claude: "harness".to_string(),
        codex: "codex".to_string(),
        opencode: "opencode".to_string(),
        anthropic_api: "anthropic-api".to_string(),
        openai_api: "openai-api".to_string(),
        gemini_api: "gemini-api".to_string(),
    };
    assert_eq!(
        describe_applies_to(&[SourceKind::Opencode, SourceKind::Codex], &names),
        "codex, opencode"
    );
    assert_eq!(describe_applies_to(&[SourceKind::ClaudeCode], &names), "harness");
}

#[test]
fn per_section_attribution_matches_grand_total_within_1e_9() {
    let memo = parse_claude_md(
        "/p/MEMO.md",
        "## Alpha\nalpha-body alpha-body alpha-body\n\n## Beta\nbeta beta beta beta beta\n",
    );
    let agents = parse_claude_md(
        "/p/AGENTS.md",
        "## Gamma\ngamma gamma\n\n## Delta\ndelta delta delta\n",
    );
    let files = memo_and_agents(&memo, &agents);
    let mut turns: Vec<TurnRecord> = Vec::new();
    for i in 0..3 {
        turns.push(mk_turn("s-cc", i, SourceKind::ClaudeCode, memo.tokens + 1000));
    }
    for i in 0..2 {
        turns.push(mk_turn("s-cx", i, SourceKind::Codex, agents.tokens + 1000));
    }
    let result = attribute_overhead(&files, &turns, &[true; 5], &[true; 5]);
    for fa in &result.per_file {
        let total = cost(fa);
        let bytes: u64 = fa.section_costs.iter().map(|s| s.bytes).sum();
        let sections = total * bytes as f64 / fa.total_bytes as f64;
        assert!(sections <= total + 1e-9);
    }
}

#[test]
fn text_that_is_not_utf8_is_read_with_marks_in_its_place() {
    let parsed = parse_overhead_bytes("/p/f.md", b"## A\xff\nb", 6);
    assert_eq!(parsed.sections[0].heading, "## A\u{fffd}");
}

#[test]
fn scopes_have_wire_names() {
    assert_eq!(OverheadFileScope::User.wire_str(), "user");
    assert_eq!(OverheadFileScope::Ancestor.wire_str(), "ancestor");
    assert_eq!(OverheadFileScope::Project.wire_str(), "project");
}

#[test]
fn a_file_that_cannot_be_read_is_not_listed() {
    let mut t = Tree::new();
    t.write("/h/repo/MEMO.md", "memo");
    assert_eq!(t.discover("/h", "/h/repo").len(), 1);
    t.files[0].1 = " \n\t".to_string();
    assert_eq!(t.discover("/h", "/h/repo").len(), 0);
}
