use relayburn_analyze::ghost_files::{
    is_markdown, is_plain_text_surface, list_dir_files, names_for_lookup, strip_extension, DirEntry,
    FileRule, GhostCandidate, GhostFindingKind,
};
use relayburn_analyze::ghost_report::{
    basename_of, ghost_surface_to_finding, shell_quote, sort_ghosts, split_synthetic_path,
    GhostSurfaceFindingOptions, PricedGhost,
};
use relayburn_analyze::ghost_surface::{
    detect_ghost_surface, detect_ghost_surface_with_adapters, find_slash,
    mine_claude_command_names, mine_codex_slash_invocations, opencode_candidates, pick_unknown,
    ClaudeGhostAdapter, ClaudeSurface, CodexGhostAdapter, CodexSurface, GhostSurfaceAdapter,
    GhostSurfaceFinding, GhostSurfaceInputs, OpenCodeGhostAdapter, OpenCodeProject,
};
use relayburn_analyze::hotspots::BySession;
use relayburn_analyze::names::{BySource, NameSet};
use relayburn_analyze::outside::JsonMember;
use relayburn_analyze::records::{SourceKind, SourceNames};
use relayburn_analyze::waste::{Amount, WasteAction, WasteSeverity};
use std::collections::HashSet;

const RATE: f64 = 1e-6;

fn files(dir: &str, names: &[&str]) -> Vec<DirEntry> {
    names
        .iter()
        .map(|n| DirEntry {
            path: format!("{dir}/{n}"),
            basename: n.to_string(),
            size: 402,
        })
        .collect()
}

fn claude() -> ClaudeSurface {
    ClaudeSurface {
        agents: files("/h/agents", &["forgotten-helper.md", "code-critic.md", "notes.txt"]),
        skills: files("/h/skills", &["git-commit.md"]),
        commands: files("/h/commands", &["openspec-archive.md", "openspec-apply.md"]),
    }
}

fn codex() -> CodexSurface {
    CodexSurface {
        prompts: files(
            "/c/prompts",
            &["refactor.md", "openspec-archive.md", "openspec-apply.md", ".hidden.md", "x.JSON"],
        ),
        skills: files("/c/skills", &["code-search.md"]),
        rules: files("/c/rules", &["no-print.md"]),
        memories: files("/c/memories", &["preferences.md"]),
    }
}

fn config() -> String {
    let skills = "{\"code-search\": {}, \"abandoned-helper\": {\"a\": 1}}";
    let commands = "{\"deploy\": {\"run\": \"make\"}, \"ghost-command\": null}";
    format!("{{\"skills\": {skills}, \"commands\": {commands}}}")
}

fn project() -> OpenCodeProject {
    OpenCodeProject {
        config_path: "/o/opencode.json".to_string(),
        config: Some(config()),
        own_skills: files("/o/.opencode/skills", &["project-skill.md"]),
        skills: Vec::new(),
    }
}

fn make_inputs() -> GhostSurfaceInputs {
    GhostSurfaceInputs {
        observed_names_by_source: BySource::new(),
        session_count_by_source: BySource::new(),
        claude: claude(),
        codex: codex(),
        opencode: vec![project()],
        user_turn_text_by_session: None,
    }
}

fn set_of(names: &[&str]) -> NameSet {
    let mut s = NameSet::new();
    for n in names {
        s.insert(n);
    }
    s
}

fn observed(source: SourceKind, names: &[&str]) -> BySource<NameSet> {
    observed_multi(&[(source, names)])
}

fn observed_multi(entries: &[(SourceKind, &[&str])]) -> BySource<NameSet> {
    let mut m = BySource::new();
    for (s, names) in entries {
        m.set(*s, set_of(names));
    }
    m
}

fn count_map(entries: &[(SourceKind, u64)]) -> BySource<u64> {
    let mut m = BySource::new();
    for (s, n) in entries {
        m.set(*s, *n);
    }
    m
}

fn said(text: &str) -> Vec<BySession<String>> {
    vec![BySession {
        session_id: "session-1".to_string(),
        records: vec![text.to_string()],
    }]
}

fn user_text(source: SourceKind, text: &str) -> Option<BySource<Vec<BySession<String>>>> {
    let mut m = BySource::new();
    m.set(source, said(text));
    Some(m)
}

fn per_session(g: &GhostSurfaceFinding) -> f64 {
    g.billed_tokens() as f64 * RATE
}

fn cost(g: &GhostSurfaceFinding) -> f64 {
    per_session(g) * g.session_count as f64
}

fn of_source(all: &[GhostSurfaceFinding], source: SourceKind) -> Vec<GhostSurfaceFinding> {
    all.iter().filter(|g| g.source == source).cloned().collect()
}

fn basenames(all: &[GhostSurfaceFinding], source: SourceKind) -> Vec<String> {
    let mut v: Vec<String> = of_source(all, source)
        .iter()
        .map(|g| basename_of(&g.path))
        .collect();
    v.sort();
    v
}

fn is_ghost(all: &[GhostSurfaceFinding], source: SourceKind, ending: &str) -> bool {
    all.iter().any(|g| g.source == source && g.path.ends_with(ending))
}

fn of_kind(candidates: &[GhostCandidate], kind: GhostFindingKind) -> Vec<String> {
    let mut v: Vec<String> = candidates
        .iter()
        .filter(|c| c.kind == kind)
        .map(|c| c.basename.clone())
        .collect();
    v.sort();
    v
}

fn names() -> SourceNames {
    SourceNames {
        claude: "harness".to_string(),
        codex: "codex".to_string(),
        opencode: "opencode".to_string(),
        anthropic_api: "anthropic-api".to_string(),
        openai_api: "openai-api".to_string(),
        gemini_api: "gemini-api".to_string(),
    }
}

fn amount(usd: f64) -> Amount {
    let severity = if usd >= 0.5 {
        WasteSeverity::High
    } else if usd >= 0.05 {
        WasteSeverity::Warn
    } else {
        WasteSeverity::Info
    };
    Amount {
        text: format!("${usd:.4}"),
        severity,
        key: (usd * 1e9) as i64,
    }
}

fn archive_to(dir: &str) -> GhostSurfaceFindingOptions {
    GhostSurfaceFindingOptions {
        archive_dir: Some(dir.to_string()),
    }
}

#[test]
fn claude_enumerates_agents_skills_commands() {
    let candidates = ClaudeGhostAdapter.enumerate(&make_inputs());
    let kinds: HashSet<GhostFindingKind> = candidates.iter().map(|c| c.kind).collect();
    assert!(kinds.contains(&GhostFindingKind::GhostAgent), "has agents");
    assert!(kinds.contains(&GhostFindingKind::GhostSkill), "has skills");
    assert!(kinds.contains(&GhostFindingKind::GhostCommand), "has commands");
    let agents = of_kind(&candidates, GhostFindingKind::GhostAgent);
    assert_eq!(agents, vec!["code-critic.md", "forgotten-helper.md"]);
}

#[test]
fn claude_returns_empty_when_home_missing() {
    let mut inputs = make_inputs();
    inputs.claude = ClaudeSurface {
        agents: Vec::new(),
        skills: Vec::new(),
        commands: Vec::new(),
    };
    assert_eq!(ClaudeGhostAdapter.enumerate(&inputs).len(), 0);
}

#[test]
fn claude_detects_ghost_agent_when_basename_not_observed() {
    let mut inputs = make_inputs();
    inputs.observed_names_by_source =
        observed(SourceKind::ClaudeCode, &["code-critic", "git-commit"]);
    inputs.session_count_by_source = count_map(&[(SourceKind::ClaudeCode, 10)]);
    let ghosts = detect_ghost_surface(&inputs);
    assert_eq!(
        basenames(&ghosts, SourceKind::ClaudeCode),
        vec!["forgotten-helper.md", "openspec-apply.md", "openspec-archive.md"]
    );
    let found = of_source(&ghosts, SourceKind::ClaudeCode);
    let helper = found
        .iter()
        .find(|g| g.path.ends_with("forgotten-helper.md"))
        .unwrap();
    assert_eq!(helper.kind, GhostFindingKind::GhostAgent);
    assert_eq!(helper.session_count, 10);
    assert!(cost(helper) > 0.0);
    assert_eq!(helper.size_tokens, 101);
}

#[test]
fn claude_de_ghosts_command_via_slash_form() {
    let mut inputs = make_inputs();
    inputs.observed_names_by_source =
        observed(SourceKind::ClaudeCode, &["code-critic", "git-commit"]);
    inputs.session_count_by_source = count_map(&[(SourceKind::ClaudeCode, 10)]);
    inputs.user_turn_text_by_session = user_text(
        SourceKind::ClaudeCode,
        "<command-name>/openspec-apply</command-name>\nApply the latest proposal.",
    );
    let ghosts = detect_ghost_surface(&inputs);
    assert_eq!(
        basenames(&ghosts, SourceKind::ClaudeCode),
        vec!["forgotten-helper.md", "openspec-archive.md"]
    );
}

#[test]
fn claude_recognises_bare_command_name_no_leading_slash() {
    let mut inputs = make_inputs();
    inputs.session_count_by_source = count_map(&[(SourceKind::ClaudeCode, 1)]);
    inputs.user_turn_text_by_session = user_text(
        SourceKind::ClaudeCode,
        "<command-name>openspec-apply</command-name>\nbody",
    );
    let ghosts = detect_ghost_surface(&inputs);
    assert!(!is_ghost(&ghosts, SourceKind::ClaudeCode, "openspec-apply.md"));
}

#[test]
fn claude_falls_back_to_v1_when_user_text_empty() {
    let mut inputs = make_inputs();
    inputs.observed_names_by_source =
        observed(SourceKind::ClaudeCode, &["code-critic", "git-commit"]);
    inputs.session_count_by_source = count_map(&[(SourceKind::ClaudeCode, 10)]);
    inputs.user_turn_text_by_session = Some(BySource::new());
    let ghosts = detect_ghost_surface(&inputs);
    assert_eq!(
        basenames(&ghosts, SourceKind::ClaudeCode),
        vec!["forgotten-helper.md", "openspec-apply.md", "openspec-archive.md"]
    );
}

#[test]
fn codex_enumerates_prompts_skills_rules_memories() {
    let c = CodexGhostAdapter.enumerate(&make_inputs());
    assert_eq!(
        of_kind(&c, GhostFindingKind::GhostPrompt),
        vec!["openspec-apply.md", "openspec-archive.md", "refactor.md"]
    );
    assert_eq!(of_kind(&c, GhostFindingKind::GhostSkill), vec!["code-search.md"]);
    assert_eq!(of_kind(&c, GhostFindingKind::GhostRule), vec!["no-print.md"]);
    assert_eq!(of_kind(&c, GhostFindingKind::GhostMemory), vec!["preferences.md"]);
}

#[test]
fn codex_flags_openspec_archive_as_ghost() {
    let mut inputs = make_inputs();
    inputs.observed_names_by_source = observed(SourceKind::Codex, &["refactor", "code-search"]);
    inputs.session_count_by_source = count_map(&[(SourceKind::Codex, 5)]);
    let found = of_source(&detect_ghost_surface(&inputs), SourceKind::Codex);
    let openspec = found
        .iter()
        .find(|g| g.path.ends_with("openspec-archive.md"))
        .unwrap();
    assert_eq!(openspec.kind, GhostFindingKind::GhostPrompt);
    assert_eq!(openspec.session_count, 5);
    assert!(cost(openspec) > 0.0);
    let kinds: HashSet<GhostFindingKind> = found.iter().map(|g| g.kind).collect();
    assert!(kinds.contains(&GhostFindingKind::GhostRule));
    assert!(kinds.contains(&GhostFindingKind::GhostMemory));
}

fn codex_ghosts_after(text: &str) -> Vec<GhostSurfaceFinding> {
    let mut inputs = make_inputs();
    inputs.observed_names_by_source = observed(SourceKind::Codex, &[]);
    inputs.session_count_by_source = count_map(&[(SourceKind::Codex, 1)]);
    inputs.user_turn_text_by_session = user_text(SourceKind::Codex, text);
    detect_ghost_surface(&inputs)
}

#[test]
fn codex_de_ghosts_via_slash_in_user_text() {
    let ghosts = codex_ghosts_after("/openspec-apply\nApply the latest proposal please.");
    assert!(!is_ghost(&ghosts, SourceKind::Codex, "openspec-apply.md"));
    assert!(is_ghost(&ghosts, SourceKind::Codex, "openspec-archive.md"));
}

#[test]
fn codex_recognises_slash_not_at_start() {
    let ghosts = codex_ghosts_after("Please run the /openspec-apply prompt now.");
    assert!(!is_ghost(&ghosts, SourceKind::Codex, "openspec-apply.md"));
}

#[test]
fn codex_does_not_match_extended_slash_command() {
    let ghosts = codex_ghosts_after("/openspec-apply-foo bar");
    assert!(is_ghost(&ghosts, SourceKind::Codex, "openspec-apply.md"));
}

#[test]
fn codex_ignores_slash_after_word_char() {
    let ghosts = codex_ghosts_after("See https://example.com/openspec-apply for docs.");
    assert!(is_ghost(&ghosts, SourceKind::Codex, "openspec-apply.md"));
}

#[test]
fn codex_matches_case_insensitively() {
    let ghosts = codex_ghosts_after("/OPENSPEC-Apply now");
    assert!(!is_ghost(&ghosts, SourceKind::Codex, "openspec-apply.md"));
}

fn two_source_inputs() -> GhostSurfaceInputs {
    let mut inputs = make_inputs();
    inputs.observed_names_by_source = observed_multi(&[
        (SourceKind::ClaudeCode, &["code-critic"]),
        (SourceKind::Codex, &["refactor"]),
    ]);
    inputs.session_count_by_source =
        count_map(&[(SourceKind::ClaudeCode, 1), (SourceKind::Codex, 1)]);
    inputs
}

#[test]
fn codex_does_not_de_ghost_from_claude_command_marker() {
    let mut inputs = two_source_inputs();
    inputs.user_turn_text_by_session = user_text(
        SourceKind::ClaudeCode,
        "<command-name>/openspec-apply</command-name>\nbody",
    );
    let ghosts = detect_ghost_surface(&inputs);
    assert!(is_ghost(&ghosts, SourceKind::Codex, "openspec-apply.md"));
    assert!(!is_ghost(&ghosts, SourceKind::ClaudeCode, "openspec-apply.md"));
}

#[test]
fn claude_does_not_de_ghost_from_codex_slash() {
    let mut inputs = two_source_inputs();
    inputs.user_turn_text_by_session = user_text(
        SourceKind::Codex,
        "/openspec-apply\nApply the latest proposal.",
    );
    let ghosts = detect_ghost_surface(&inputs);
    assert!(is_ghost(&ghosts, SourceKind::ClaudeCode, "openspec-apply.md"));
    assert!(!is_ghost(&ghosts, SourceKind::Codex, "openspec-apply.md"));
}

#[test]
fn opencode_enumerates_declared_skills_commands_and_project_skills() {
    let candidates = OpenCodeGhostAdapter.enumerate(&make_inputs());
    let (declared, project): (Vec<GhostCandidate>, Vec<GhostCandidate>) = candidates
        .into_iter()
        .partition(|c| c.counted_by_catalog_bloat == Some(true));
    let mut declared_names: Vec<String> = declared.iter().map(|c| c.basename.clone()).collect();
    declared_names.sort();
    assert_eq!(declared_names, vec!["abandoned-helper", "code-search"]);
    let skills = of_kind(&project, GhostFindingKind::GhostSkill);
    assert_eq!(skills, vec!["project-skill.md"]);
    let commands = of_kind(&project, GhostFindingKind::GhostCommand);
    assert_eq!(commands, vec!["deploy", "ghost-command"]);
}

#[test]
fn opencode_emits_zero_cost_for_declared_catalog_bloat() {
    let mut inputs = make_inputs();
    inputs.observed_names_by_source = observed(SourceKind::Opencode, &["code-search", "deploy"]);
    inputs.session_count_by_source = count_map(&[(SourceKind::Opencode, 20)]);
    let found = of_source(&detect_ghost_surface(&inputs), SourceKind::Opencode);
    let abandoned = found
        .iter()
        .find(|g| g.path.contains("abandoned-helper"))
        .expect("declared catalog skill is reported");
    assert_eq!(cost(abandoned), 0.0);
    assert_eq!(abandoned.counted_by_catalog_bloat, Some(true));
    let command = found
        .iter()
        .find(|g| g.path.ends_with("#/commands/ghost-command"))
        .unwrap();
    assert!(cost(command) > 0.0);
    assert_eq!(command.counted_by_catalog_bloat, None);
    let skill = found
        .iter()
        .find(|g| g.path.ends_with("project-skill.md"))
        .unwrap();
    assert!(cost(skill) > 0.0);
    assert_eq!(skill.counted_by_catalog_bloat, None);
}

fn priced(all: Vec<GhostSurfaceFinding>) -> Vec<PricedGhost> {
    all.into_iter()
        .map(|g| PricedGhost {
            cost_key: (cost(&g) * 1e9) as i64,
            found: g,
        })
        .collect()
}

#[test]
fn orchestrator_runs_every_adapter_sorted_by_cost_desc() {
    let mut inputs = make_inputs();
    inputs.observed_names_by_source = observed_multi(&[
        (SourceKind::ClaudeCode, &["code-critic", "git-commit"]),
        (SourceKind::Codex, &["refactor", "code-search"]),
        (SourceKind::Opencode, &["code-search", "deploy"]),
    ]);
    inputs.session_count_by_source = count_map(&[
        (SourceKind::ClaudeCode, 10),
        (SourceKind::Codex, 5),
        (SourceKind::Opencode, 20),
    ]);
    let ghosts = sort_ghosts(priced(detect_ghost_surface(&inputs)));
    for w in ghosts.windows(2) {
        assert!(cost(&w[0].found) >= cost(&w[1].found), "sorted by cost desc");
    }
    let sources: HashSet<SourceKind> = ghosts.iter().map(|g| g.found.source).collect();
    assert!(sources.contains(&SourceKind::ClaudeCode));
    assert!(sources.contains(&SourceKind::Codex));
    assert!(sources.contains(&SourceKind::Opencode));
}

#[test]
fn orchestrator_treats_observed_case_insensitively() {
    let mut inputs = make_inputs();
    inputs.observed_names_by_source = observed(
        SourceKind::ClaudeCode,
        &["Code-Critic", "GIT-COMMIT", "forgotten-HELPER", "openspec-archive", "openspec-apply"],
    );
    inputs.session_count_by_source = count_map(&[(SourceKind::ClaudeCode, 1)]);
    let ghosts = detect_ghost_surface(&inputs);
    assert_eq!(of_source(&ghosts, SourceKind::ClaudeCode).len(), 0);
}

#[test]
fn orchestrator_includes_ghost_when_session_count_zero() {
    let mut inputs = make_inputs();
    inputs.observed_names_by_source = observed(SourceKind::ClaudeCode, &[]);
    let found = of_source(&detect_ghost_surface(&inputs), SourceKind::ClaudeCode);
    assert!(!found.is_empty());
    for g in &found {
        assert_eq!(cost(g), 0.0);
        assert_eq!(g.session_count, 0);
    }
}

fn helper_after(sessions: u64) -> GhostSurfaceFinding {
    let mut inputs = make_inputs();
    inputs.observed_names_by_source = observed(SourceKind::ClaudeCode, &["code-critic"]);
    inputs.session_count_by_source = count_map(&[(SourceKind::ClaudeCode, sessions)]);
    detect_ghost_surface(&inputs)
        .into_iter()
        .find(|g| g.path.ends_with("forgotten-helper.md"))
        .unwrap()
}

#[test]
fn finding_produces_mv_command_action() {
    let helper = helper_after(10);
    let finding = ghost_surface_to_finding(
        &helper,
        &archive_to("/tmp/ghost-archive"),
        &names(),
        "/ledger/ghost-archive",
        &amount(per_session(&helper)),
        "$0.0010",
    );
    assert_eq!(finding.kind, "ghost-agent");
    assert_eq!(finding.actions.len(), 1);
    match &finding.actions[0] {
        WasteAction::Command { text, .. } => {
            assert!(text.contains("mv "));
            assert!(text.contains("/tmp/ghost-archive"));
            assert!(text.contains(&helper.path));
        }
        other => panic!("expected Command, got {other:?}"),
    }
    assert!(finding.title.contains("forgotten-helper"));
    assert!(finding.detail.contains(&names().claude));
}

fn opencode_ghost(sessions: u64, part: &str) -> GhostSurfaceFinding {
    let mut inputs = make_inputs();
    inputs.observed_names_by_source = observed(SourceKind::Opencode, &["deploy"]);
    inputs.session_count_by_source = count_map(&[(SourceKind::Opencode, sessions)]);
    detect_ghost_surface(&inputs)
        .into_iter()
        .find(|g| g.path.contains(part))
        .unwrap()
}

#[test]
fn finding_marks_catalog_bloat_with_zero_cost_and_dedup_note() {
    let abandoned = opencode_ghost(100, "abandoned-helper");
    assert_eq!(per_session(&abandoned), 0.0);
    let finding = ghost_surface_to_finding(
        &abandoned,
        &GhostSurfaceFindingOptions::default(),
        &names(),
        "/ledger/ghost-archive",
        &amount(per_session(&abandoned)),
        "$0.0000",
    );
    assert_eq!(finding.cost_key, 0);
    assert!(finding.detail.contains("catalog-bloat"));
}

#[test]
fn finding_uses_per_session_cost_for_severity() {
    let helper = helper_after(100_000);
    assert!(cost(&helper) > 1.0, "expected cumulative cost > $1");
    assert!(per_session(&helper) < 0.05);
    let each = amount(per_session(&helper));
    let finding = ghost_surface_to_finding(
        &helper,
        &archive_to("/tmp/ghost-archive"),
        &names(),
        "/ledger/ghost-archive",
        &each,
        "$10.10",
    );
    assert_eq!(finding.cost_key, each.key);
    assert_eq!(finding.severity, WasteSeverity::Info);
}

fn plain_ghost(path: &str) -> GhostSurfaceFinding {
    GhostSurfaceFinding {
        source: SourceKind::Codex,
        kind: GhostFindingKind::GhostAgent,
        path: path.to_string(),
        size_tokens: 1234,
        session_count: 10,
        counted_by_catalog_bloat: None,
    }
}

#[test]
fn finding_shell_quotes_paths_with_spaces() {
    let found = plain_ghost("/Users/me/.harness/agents/my helper.md");
    let finding = ghost_surface_to_finding(
        &found,
        &archive_to("/tmp/ghost archive"),
        &names(),
        "/ledger/ghost-archive",
        &amount(0.0001),
        "$0.0010",
    );
    match &finding.actions[0] {
        WasteAction::Command { text, .. } => {
            assert!(text.contains("'/Users/me/.harness/agents/my helper.md'"));
            assert!(text.contains("'/tmp/ghost archive"));
        }
        other => panic!("expected Command action, got {other:?}"),
    }
}

#[test]
fn finding_emits_paste_for_synthetic_opencode_paths() {
    let synthetic = opencode_ghost(5, "#/commands/ghost-command");
    let finding = ghost_surface_to_finding(
        &synthetic,
        &GhostSurfaceFindingOptions::default(),
        &names(),
        "/ledger/ghost-archive",
        &amount(per_session(&synthetic)),
        "$0.0000",
    );
    match &finding.actions[0] {
        WasteAction::Paste { text, .. } => {
            assert!(!text.contains("mv "));
            assert!(text.contains("opencode.json"));
            assert!(text.contains("/commands/ghost-command"));
        }
        other => panic!("expected Paste action, got {other:?}"),
    }
}

#[test]
fn a_finding_reads_in_full() {
    let finding = ghost_surface_to_finding(
        &plain_ghost("/c/agents/x.md"),
        &GhostSurfaceFindingOptions::default(),
        &names(),
        "/ledger/ghost-archive",
        &amount(0.06),
        "$0.60",
    );
    assert_eq!(finding.title, "Ghost agent: x.md (codex)");
    assert_eq!(
        finding.detail,
        "/c/agents/x.md is part of the user-installed codex surface (~1,234 tokens) but its \
         basename was never invoked as a tool / agent / command / prompt in the observed window. \
         Observed across 10 codex session(s) in the lookback window. Per-session cost $0.0600; \
         cumulative $0.60."
    );
    assert_eq!(finding.session_id, "ghost:/c/agents/x.md");
    assert_eq!(finding.severity, WasteSeverity::Warn);
    assert_eq!(
        finding.actions,
        vec![WasteAction::Command {
            label: "Archive ghost ghost-agent".to_string(),
            text: "mkdir -p '/ledger/ghost-archive' && mv '/c/agents/x.md' \
                   '/ledger/ghost-archive/'"
                .to_string(),
        }]
    );
}

#[test]
fn marks_are_mined_whatever_their_case_and_spaces() {
    let texts = said("<COMMAND-NAME> /do:it </command-name> and <command-name>b.c</command-name>");
    let mined = mine_claude_command_names(Some(&texts));
    assert_eq!(mined.len(), 2);
    assert!(mined.contains("do:it"));
    assert!(mined.contains("b.c"));
    assert_eq!(mine_claude_command_names(None).len(), 0);
}

fn candidate(basename: &str) -> GhostCandidate {
    GhostCandidate {
        source: SourceKind::Codex,
        kind: GhostFindingKind::GhostPrompt,
        path: basename.to_string(),
        basename: basename.to_string(),
        size_tokens: 1,
        counted_by_catalog_bloat: None,
    }
}

#[test]
fn of_names_that_differ_in_case_the_last_is_mined() {
    let candidates = vec![candidate("Fix.md"), candidate("fix.md")];
    let mined = mine_codex_slash_invocations(Some(&said("run /FIX!")), &candidates);
    assert_eq!(mined.len(), 1);
    assert!(mined.contains("fix"));
    assert_eq!(mine_codex_slash_invocations(None, &candidates).len(), 0);
}

#[test]
fn a_slash_command_has_its_bounds() {
    assert!(find_slash("/a", "a"));
    assert!(find_slash("x/a /a.", "a"));
    assert!(!find_slash("x/a", "a"));
    assert!(!find_slash("/ab", "a"));
    assert!(!find_slash("/a-", "a"));
    assert!(!find_slash("", "a"));
}

#[test]
fn settings_declare_skills_by_key_or_by_name() {
    let listed = Some(JsonMember::Array(vec![
        Some("b".to_string()),
        None,
        Some("a".to_string()),
        Some("b".to_string()),
    ]));
    let c = opencode_candidates("/o/opencode.json", &listed, &None, &Vec::new(), &Vec::new());
    let paths: Vec<&str> = c.iter().map(|c| c.path.as_str()).collect();
    assert_eq!(paths, vec!["/o/opencode.json#/skills/a", "/o/opencode.json#/skills/b"]);

    let commands = Some(JsonMember::Object(vec![
        ("deploy".to_string(), "{\"run\":\"make\"}".to_string()),
        ("none".to_string(), "null".to_string()),
    ]));
    let c = opencode_candidates("/o/opencode.json", &None, &commands, &Vec::new(), &Vec::new());
    assert_eq!(c[0].size_tokens, 4);
    assert_eq!(c[1].size_tokens, 1);
}

#[test]
fn settings_that_are_not_json_declare_nothing() {
    let mut inputs = make_inputs();
    inputs.opencode[0].config = Some("{ broken".to_string());
    let c = OpenCodeGhostAdapter.enumerate(&inputs);
    assert_eq!(c.len(), 1);
    assert_eq!(c[0].basename, "project-skill.md");
}

#[test]
fn adapters_can_be_chosen() {
    let inputs = make_inputs();
    let chosen: [&dyn GhostSurfaceAdapter; 1] = [&CodexGhostAdapter];
    let ghosts = detect_ghost_surface_with_adapters(&inputs, &chosen);
    assert_eq!(ghosts.len(), 6);
    assert!(ghosts.iter().all(|g| g.source == SourceKind::Codex));
}

#[test]
fn file_names_are_sorted_and_filtered() {
    let list = list_dir_files(&files("/d", &["b.md", "a.markdown", "c.txt"]), FileRule::Markdown);
    let found: Vec<&str> = list.iter().map(|e| e.basename.as_str()).collect();
    assert_eq!(found, vec!["a.markdown", "b.md"]);
    assert!(is_markdown("x.md"));
    assert!(!is_markdown("x.MD"));
    assert!(is_plain_text_surface("x"));
    assert!(!is_plain_text_surface(".x"));
    assert!(!is_plain_text_surface("x.Tar"));
}

#[test]
fn names_without_their_extension() {
    assert_eq!(strip_extension("a.b.md"), "a.b");
    assert_eq!(strip_extension(".hidden"), ".hidden");
    assert_eq!(strip_extension("plain"), "plain");
    assert_eq!(names_for_lookup("Big.md"), vec!["Big", "big"]);
    assert_eq!(names_for_lookup("small.md"), vec!["small"]);
}

#[test]
fn paths_lead_to_files() {
    assert_eq!(basename_of("/a/b.md"), "b.md");
    assert_eq!(basename_of("/a/b/./"), "b");
    assert_eq!(basename_of("a/.."), "a/..");
    assert_eq!(basename_of("/"), "/");
    assert_eq!(
        split_synthetic_path("/o.json#/x#y"),
        Some(("/o.json".to_string(), "/x#y".to_string()))
    );
    assert_eq!(split_synthetic_path("/o.json"), None);
}

#[test]
fn a_quote_is_quoted() {
    assert_eq!(shell_quote("it's"), "'it'\\''s'");
    assert_eq!(shell_quote(""), "''");
}

#[test]
fn kinds_have_names() {
    assert_eq!(GhostFindingKind::GhostMemory.as_kebab(), "ghost-memory");
    assert_eq!(GhostFindingKind::GhostMemory.bare_name(), "memory");
}

#[test]
fn picks_the_candidates_with_no_known_name() {
    let candidate = |path: &str, tokens: u64| GhostCandidate {
        source: SourceKind::Codex,
        kind: GhostFindingKind::GhostSkill,
        path: path.to_string(),
        basename: path.to_string(),
        size_tokens: tokens,
        counted_by_catalog_bloat: None,
    };
    let candidates = vec![candidate("used", 10), candidate("idle", 20), candidate("nameless", 30)];
    let names = vec![
        vec!["used.md".to_string(), "used".to_string()],
        vec!["idle.md".to_string(), "idle".to_string()],
        vec![],
    ];
    let mut known = NameSet::new();
    known.insert("used");
    known.insert("IDLE");
    let r = pick_unknown(&candidates, &names, &known, 7);
    assert_eq!(r.len(), 2);
    assert_eq!((r[0].path.as_str(), r[0].size_tokens, r[0].session_count), ("idle", 20, 7));
    assert_eq!((r[1].path.as_str(), r[1].size_tokens, r[1].session_count), ("nameless", 30, 7));
}
