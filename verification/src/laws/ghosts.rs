//! Files of a harness that nothing calls.

use crate::ghost_files;
use crate::ghost_files::{DirEntry, FileRule, GhostFindingKind};
use crate::ghost_report;
use crate::ghost_surface;
use crate::ghost_surface::{
    ClaudeGhostAdapter, CodexGhostAdapter, GhostSurfaceAdapter, GhostSurfaceInputs, GhostView,
    OpenCodeGhostAdapter, OpenCodeProject,
};
use crate::ghost_surface_inputs;
use crate::groups;
use crate::laws;
use crate::order;
use crate::outside;
use crate::outside::MemberView;
use crate::records::{SourceKind, TurnRecord};
use crate::text;
use crate::waste::ActionView;
use vstd::prelude::*;

verus! {

/// Whether the name ends with the text.
pub open spec fn ends(name: Seq<char>, tail: Seq<char>) -> bool {
    exists|head: Seq<char>| #[trigger] (head + tail) == name
}

proof fn lemma_ends(name: Seq<char>, tail: Seq<char>)
    ensures
        ends(name, tail) <==> text::has_suffix(name, tail),
{
    if text::has_suffix(name, tail) {
        assert(name.take(name.len() - tail.len()) + tail =~= name);
    }
    if ends(name, tail) {
        let head = choose|head: Seq<char>| #[trigger] (head + tail) == name;
        assert(name.skip(name.len() - tail.len()) =~= tail);
    }
}

/// The endings of files that hold data, pictures or archives.
pub open spec fn data_endings() -> Seq<Seq<char>> {
    seq![
        ".json"@,
        ".jsonl"@,
        ".yaml"@,
        ".yml"@,
        ".toml"@,
        ".lock"@,
        ".log"@,
        ".tsbuildinfo"@,
        ".png"@,
        ".jpg"@,
        ".jpeg"@,
        ".gif"@,
        ".webp"@,
        ".pdf"@,
        ".zip"@,
        ".tar"@,
        ".gz"@,
    ]
}

/// Whether two letters are the same but for their case.
pub open spec fn same_letter(a: char, b: char) -> bool {
    a == b || ('A' <= a && a <= 'Z' && b as int == a as int + 32)
}

/// Whether the second text is the first in small letters.
pub open spec fn in_small(a: Seq<char>, b: Seq<char>) -> bool {
    a.len() == b.len() && forall|i: int|
        0 <= i < a.len() ==> same_letter(a[i], #[trigger] b[i]) && !('A' <= b[i] && b[i] <= 'Z')
}

/// A file is offered where it is markdown, if the rule asks for that. Else it is
/// offered where its name begins with no dot and has, in whatever case, none of
/// the endings of data.
pub proof fn lemma_file_rules(name: Seq<char>, small: Seq<char>)
    requires
        in_small(name, small),
    ensures
        FileRule::Markdown.takes(name) <==> ends(name, ".md"@) || ends(name, ".markdown"@),
        FileRule::PlainText.takes(name) <==> !(name.len() > 0 && name[0] == '.') && forall|i: int|
            0 <= i < data_endings().len() ==> !ends(small, #[trigger] data_endings()[i]),
{
    lemma_ends(name, ".md"@);
    lemma_ends(name, ".markdown"@);
    reveal_strlit(".");
    assert("."@.len() == 1 && "."@[0] == '.');
    assert(text::has_prefix(name, "."@) <==> name.len() > 0 && name[0] == '.') by {
        if name.len() > 0 && name[0] == '.' {
            assert(name.take(1) =~= "."@);
        }
        if text::has_prefix(name, "."@) {
            assert(name.take(1)[0] == "."@[0]);
        }
    }
    let low = name.map_values(|c: char| ghost_files::ascii_lower(c));
    assert(low =~= small) by {
        assert forall|i: int| 0 <= i < name.len() implies low[i] == #[trigger] small[i] by {
            lemma_lower(name[i], small[i]);
        }
    }
    let all = data_endings();
    assert forall|i: int| 0 <= i < all.len() implies ends(small, #[trigger] all[i])
        == text::has_suffix(small, all[i]) by {
        lemma_ends(small, all[i]);
    }
    assert(all[0] == ".json"@ && all[1] == ".jsonl"@ && all[2] == ".yaml"@ && all[3] == ".yml"@
        && all[4] == ".toml"@ && all[5] == ".lock"@ && all[6] == ".log"@ && all[7]
        == ".tsbuildinfo"@ && all[8] == ".png"@ && all[9] == ".jpg"@ && all[10] == ".jpeg"@
        && all[11] == ".gif"@ && all[12] == ".webp"@ && all[13] == ".pdf"@ && all[14] == ".zip"@
        && all[15] == ".tar"@ && all[16] == ".gz"@);
}

proof fn lemma_lower(a: char, b: char)
    requires
        same_letter(a, b),
        !('A' <= b && b <= 'Z'),
    ensures
        ghost_files::ascii_lower(a) == b,
{
    if 'A' <= a && a <= 'Z' {
        assert(b as u32 == (a as u32 + 32) as u32);
        assert((a as u32 + 32) as char == b);
    }
}

/// Whether the stem is the name without its last ending; a dot at the front
/// begins no ending.
pub open spec fn is_stem(stem: Seq<char>, name: Seq<char>) -> bool {
    ||| stem.len() > 0 && exists|tail: Seq<char>|
        #![trigger tail.len()]
        name == stem + seq!['.'] + tail && forall|k: int|
            0 <= k < tail.len() ==> #[trigger] tail[k] != '.'
    ||| stem == name && forall|k: int| 0 < k < name.len() ==> #[trigger] name[k] != '.'
}

proof fn lemma_last_at(s: Seq<char>, c: char, n: int)
    requires
        -1 <= n < s.len(),
        n >= 0 ==> s[n] == c,
        forall|k: int| n < k < s.len() ==> #[trigger] s[k] != c,
    ensures
        ghost_files::last_at(s, c) == n,
    decreases s.len(),
{
    if s.len() > 0 && n < s.len() - 1 {
        assert(s[s.len() - 1] != c);
        let d = s.drop_last();
        assert forall|k: int| n < k < d.len() implies #[trigger] d[k] != c by {
            assert(d[k] == s[k]);
        }
        lemma_last_at(d, c, n);
    }
}

proof fn lemma_stem(stem: Seq<char>, name: Seq<char>)
    requires
        is_stem(stem, name),
    ensures
        ghost_files::stem_of(name) == stem,
{
    if stem == name && forall|k: int| 0 < k < name.len() ==> #[trigger] name[k] != '.' {
        if name.len() > 0 && name[0] == '.' {
            lemma_last_at(name, '.', 0);
        } else {
            lemma_last_at(name, '.', -1);
        }
    } else {
        let tail = choose|tail: Seq<char>|
            #![trigger tail.len()]
            name == stem + seq!['.'] + tail && forall|k: int|
                0 <= k < tail.len() ==> #[trigger] tail[k] != '.';
        let n = stem.len() as int;
        assert forall|k: int| n < k < name.len() implies #[trigger] name[k] != '.' by {
            assert(name[k] == tail[k - n - 1]);
        }
        lemma_last_at(name, '.', n);
        assert(name.take(n) =~= stem);
    }
}

/// Whether none of the names that are known is the stem, in whatever case.
pub open spec fn uncalled(stem: Seq<char>, known: Set<Seq<char>>) -> bool {
    forall|m: Seq<char>| #[trigger]
        known.contains(m) ==> outside::lowercase(m) != outside::lowercase(stem)
            && outside::lowercase(m) != outside::lowercase(outside::lowercase(stem))
}

proof fn lemma_uncalled(stem: Seq<char>, name: Seq<char>, known: Set<Seq<char>>)
    requires
        is_stem(stem, name),
        uncalled(stem, known),
    ensures
        !ghost_surface::is_invoked(name, known),
{
    lemma_stem(stem, name);
    let l = ghost_files::lookups_of(name);
    if ghost_surface::is_invoked(name, known) {
        let i = choose|i: int|
            0 <= i < l.len() && ghost_surface::known_as(known, #[trigger] l[i]);
        let m = choose|m: Seq<char>| #[trigger]
            known.contains(m) && outside::lowercase(m) == outside::lowercase(l[i]);
        assert(l[i] == stem || l[i] == outside::lowercase(stem));
    }
}

/// Whether the ghost is the file, as a file of that kind of the harness: its
/// size is taken for a token for every four bytes that it begins.
pub open spec fn is_ghost_of(
    g: GhostView,
    source: SourceKind,
    kind: GhostFindingKind,
    e: DirEntry,
    sessions: u64,
) -> bool {
    &&& g.source == source
    &&& g.kind == kind
    &&& g.path == e.path@
    &&& 4 * g.size_tokens - 3 <= e.size <= 4 * g.size_tokens
    &&& g.session_count == sessions
    &&& g.counted is None
}

proof fn lemma_in_dir(
    source: SourceKind,
    kind: GhostFindingKind,
    files: Seq<DirEntry>,
    rule: FileRule,
    i: int,
) -> (k: int)
    requires
        0 <= i < files.len(),
        rule.takes(files[i].basename@),
    ensures
        ({
            let c = ghost_files::dir_candidates(
                source,
                kind,
                ghost_files::entry_views(files),
                rule,
            );
            &&& 0 <= k < c.len()
            &&& c[k].source == source
            &&& c[k].kind == kind
            &&& c[k].path == files[i].path@
            &&& c[k].basename == files[i].basename@
            &&& 4 * c[k].size_tokens - 3 <= files[i].size <= 4 * c[k].size_tokens
            &&& c[k].counted is None
        }),
{
    let entries = ghost_files::entry_views(files);
    ghost_files::lemma_listed(entries, rule);
    assert(entries[i] == files[i]@);
    let l = ghost_files::listed(entries, rule);
    assert(l.contains(entries[i]));
    let k = choose|k: int| 0 <= k < l.len() && l[k] == entries[i];
    let c = ghost_files::dir_candidates(source, kind, entries, rule);
    assert(c[k] == ghost_files::file_candidate(source, kind, l[k]));
    k
}

proof fn lemma_is_reported<A: GhostSurfaceAdapter>(
    adapter: &A,
    inputs: GhostSurfaceInputs,
    kind: GhostFindingKind,
    e: DirEntry,
    stem: Seq<char>,
    k: int,
) -> (p: int)
    requires
        is_stem(stem, e.basename@),
        uncalled(stem, ghost_surface::known_names(adapter, inputs)),
        0 <= k < adapter.offers(inputs).len(),
        ({
            let c = adapter.offers(inputs)[k];
            &&& c.source == adapter.harness()
            &&& c.kind == kind
            &&& c.path == e.path@
            &&& c.basename == e.basename@
            &&& 4 * c.size_tokens - 3 <= e.size <= 4 * c.size_tokens
            &&& c.counted is None
        }),
    ensures
        0 <= p < ghost_surface::ghosts_of(adapter, inputs).len(),
        is_ghost_of(
            ghost_surface::ghosts_of(adapter, inputs)[p],
            adapter.harness(),
            kind,
            e,
            ghost_surface::sessions_in(inputs, adapter.harness()),
        ),
{
    let all = ghost_surface::ghosts_of(adapter, inputs);
    let c = adapter.offers(inputs)[k];
    let g = ghost_surface::ghost_of(c, ghost_surface::sessions_in(inputs, adapter.harness()));
    lemma_uncalled(stem, e.basename@, ghost_surface::known_names(adapter, inputs));
    ghost_surface::lemma_ghosts(adapter, inputs, g);
    assert(all.contains(g));
    choose|p: int| 0 <= p < all.len() && all[p] == g
}

/// Every markdown file among the agents, skills and commands of the first
/// harness is reported where nothing calls its stem, as what it was meant to
/// be.
pub proof fn lemma_claude_ghosts(
    inputs: GhostSurfaceInputs,
    kind: GhostFindingKind,
    i: int,
    stem: Seq<char>,
) -> (p: int)
    requires
        kind == GhostFindingKind::GhostAgent || kind == GhostFindingKind::GhostSkill || kind
            == GhostFindingKind::GhostCommand,
        ({
            let files = match kind {
                GhostFindingKind::GhostAgent => inputs.claude.agents@,
                GhostFindingKind::GhostSkill => inputs.claude.skills@,
                _ => inputs.claude.commands@,
            };
            &&& 0 <= i < files.len()
            &&& ends(files[i].basename@, ".md"@) || ends(files[i].basename@, ".markdown"@)
            &&& is_stem(stem, files[i].basename@)
        }),
        uncalled(stem, ghost_surface::known_names(&ClaudeGhostAdapter, inputs)),
    ensures
        0 <= p < ghost_surface::ghosts_of(&ClaudeGhostAdapter, inputs).len(),
        is_ghost_of(
            ghost_surface::ghosts_of(&ClaudeGhostAdapter, inputs)[p],
            SourceKind::ClaudeCode,
            kind,
            match kind {
                GhostFindingKind::GhostAgent => inputs.claude.agents@[i],
                GhostFindingKind::GhostSkill => inputs.claude.skills@[i],
                _ => inputs.claude.commands@[i],
            },
            ghost_surface::sessions_in(inputs, SourceKind::ClaudeCode),
        ),
{
    let s = SourceKind::ClaudeCode;
    let rule = FileRule::Markdown;
    let a = ghost_files::dir_candidates(
        s,
        GhostFindingKind::GhostAgent,
        ghost_files::entry_views(inputs.claude.agents@),
        rule,
    );
    let b = ghost_files::dir_candidates(
        s,
        GhostFindingKind::GhostSkill,
        ghost_files::entry_views(inputs.claude.skills@),
        rule,
    );
    let c = ghost_files::dir_candidates(
        s,
        GhostFindingKind::GhostCommand,
        ghost_files::entry_views(inputs.claude.commands@),
        rule,
    );
    assert(ClaudeGhostAdapter.offers(inputs) == a + b + c);
    let files = match kind {
        GhostFindingKind::GhostAgent => inputs.claude.agents@,
        GhostFindingKind::GhostSkill => inputs.claude.skills@,
        _ => inputs.claude.commands@,
    };
    lemma_ends(files[i].basename@, ".md"@);
    lemma_ends(files[i].basename@, ".markdown"@);
    let k = lemma_in_dir(s, kind, files, rule, i);
    let at = match kind {
        GhostFindingKind::GhostAgent => k,
        GhostFindingKind::GhostSkill => a.len() + k,
        _ => a.len() + b.len() + k,
    };
    lemma_is_reported(&ClaudeGhostAdapter, inputs, kind, files[i], stem, at)
}

/// Every file among the prompts, skills, rules and memories of Codex that may
/// hold text is reported where nothing calls its stem, as what it was meant to
/// be.
pub proof fn lemma_codex_ghosts(
    inputs: GhostSurfaceInputs,
    kind: GhostFindingKind,
    i: int,
    stem: Seq<char>,
    small: Seq<char>,
) -> (p: int)
    requires
        kind == GhostFindingKind::GhostPrompt || kind == GhostFindingKind::GhostSkill || kind
            == GhostFindingKind::GhostRule || kind == GhostFindingKind::GhostMemory,
        ({
            let files = match kind {
                GhostFindingKind::GhostPrompt => inputs.codex.prompts@,
                GhostFindingKind::GhostSkill => inputs.codex.skills@,
                GhostFindingKind::GhostRule => inputs.codex.rules@,
                _ => inputs.codex.memories@,
            };
            let name = files[i].basename@;
            &&& 0 <= i < files.len()
            &&& in_small(name, small)
            &&& !(name.len() > 0 && name[0] == '.')
            &&& forall|k: int|
                0 <= k < data_endings().len() ==> !ends(small, #[trigger] data_endings()[k])
            &&& is_stem(stem, name)
        }),
        uncalled(stem, ghost_surface::known_names(&CodexGhostAdapter, inputs)),
    ensures
        0 <= p < ghost_surface::ghosts_of(&CodexGhostAdapter, inputs).len(),
        is_ghost_of(
            ghost_surface::ghosts_of(&CodexGhostAdapter, inputs)[p],
            SourceKind::Codex,
            kind,
            match kind {
                GhostFindingKind::GhostPrompt => inputs.codex.prompts@[i],
                GhostFindingKind::GhostSkill => inputs.codex.skills@[i],
                GhostFindingKind::GhostRule => inputs.codex.rules@[i],
                _ => inputs.codex.memories@[i],
            },
            ghost_surface::sessions_in(inputs, SourceKind::Codex),
        ),
{
    let s = SourceKind::Codex;
    let rule = FileRule::PlainText;
    let a = ghost_files::dir_candidates(
        s,
        GhostFindingKind::GhostPrompt,
        ghost_files::entry_views(inputs.codex.prompts@),
        rule,
    );
    let b = ghost_files::dir_candidates(
        s,
        GhostFindingKind::GhostSkill,
        ghost_files::entry_views(inputs.codex.skills@),
        rule,
    );
    let c = ghost_files::dir_candidates(
        s,
        GhostFindingKind::GhostRule,
        ghost_files::entry_views(inputs.codex.rules@),
        rule,
    );
    let d = ghost_files::dir_candidates(
        s,
        GhostFindingKind::GhostMemory,
        ghost_files::entry_views(inputs.codex.memories@),
        rule,
    );
    assert(CodexGhostAdapter.offers(inputs) == a + b + c + d);
    let files = match kind {
        GhostFindingKind::GhostPrompt => inputs.codex.prompts@,
        GhostFindingKind::GhostSkill => inputs.codex.skills@,
        GhostFindingKind::GhostRule => inputs.codex.rules@,
        _ => inputs.codex.memories@,
    };
    lemma_file_rules(files[i].basename@, small);
    let k = lemma_in_dir(s, kind, files, rule, i);
    let at = match kind {
        GhostFindingKind::GhostPrompt => k,
        GhostFindingKind::GhostSkill => a.len() + k,
        GhostFindingKind::GhostRule => a.len() + b.len() + k,
        _ => a.len() + b.len() + c.len() + k,
    };
    lemma_is_reported(&CodexGhostAdapter, inputs, kind, files[i], stem, at)
}

/// A name counts as called by a source if and only if one of its turns calls a
/// tool or a skill of that name, or is that of a subagent of that type.
pub proof fn lemma_called_names(turns: Seq<TurnRecord>, source: SourceKind, name: Seq<char>)
    ensures
        ghost_surface_inputs::source_bears(turns, source, name) <==> exists|i: int|
            0 <= i < turns.len() && (#[trigger] turns[i]).source == source && calls_name(
                turns[i],
                name,
            ),
{
    assert forall|i: int| 0 <= i < turns.len() implies calls_name(#[trigger] turns[i], name)
        == ghost_surface_inputs::turn_bears(turns[i], name) by {
        lemma_calls_name(turns[i], name);
    }
}

/// Whether the turn calls the name.
pub open spec fn calls_name(t: TurnRecord, name: Seq<char>) -> bool {
    ||| exists|j: int| 0 <= j < t.tool_calls@.len() && (#[trigger] t.tool_calls@[j]).name@ == name
    ||| exists|j: int|
        0 <= j < t.tool_calls@.len() && ((#[trigger] t.tool_calls@[j]).skill_name matches Some(n)
            && n@ == name)
    ||| t.subagent matches Some(a) && (a.subagent_type matches Some(n) && n@ == name)
}

proof fn lemma_calls_name(t: TurnRecord, name: Seq<char>)
    ensures
        calls_name(t, name) == ghost_surface_inputs::turn_bears(t, name),
{
    if ghost_surface_inputs::turn_bears(t, name) {
        if exists|j: int|
            0 <= j < t.tool_calls@.len() && ghost_surface_inputs::call_bears(
                #[trigger] t.tool_calls@[j],
                name,
            ) {
            let j = choose|j: int|
                0 <= j < t.tool_calls@.len() && ghost_surface_inputs::call_bears(
                    #[trigger] t.tool_calls@[j],
                    name,
                );
            if t.tool_calls@[j].name@ != name {
                assert(t.tool_calls@[j].skill_name is Some);
            }
        }
    }
    if calls_name(t, name) {
        if exists|j: int|
            0 <= j < t.tool_calls@.len() && (#[trigger] t.tool_calls@[j]).name@ == name {
            let j = choose|j: int|
                0 <= j < t.tool_calls@.len() && (#[trigger] t.tool_calls@[j]).name@ == name;
            assert(ghost_surface_inputs::call_bears(t.tool_calls@[j], name));
        } else if exists|j: int|
            0 <= j < t.tool_calls@.len() && ((#[trigger] t.tool_calls@[j]).skill_name matches Some(
                n,
            ) && n@ == name) {
            let j = choose|j: int|
                0 <= j < t.tool_calls@.len() && ((
                #[trigger] t.tool_calls@[j]).skill_name matches Some(n) && n@ == name);
            assert(ghost_surface_inputs::call_bears(t.tool_calls@[j], name));
        }
    }
}

/// Whether the letter can be part of a word.
pub open spec fn in_word(c: char) -> bool {
    ||| 'a' <= c && c <= 'z'
    ||| 'A' <= c && c <= 'Z'
    ||| '0' <= c && c <= '9'
    ||| c == '_'
}

/// A text calls a command where it holds a slash and the name of the command,
/// with no word right before it and none, nor a hyphen, right behind.
pub proof fn lemma_slash_calls(before: Seq<char>, stem: Seq<char>, behind: Seq<char>)
    requires
        before.len() > 0 ==> !in_word(before.last()),
        behind.len() > 0 ==> !in_word(behind[0]) && behind[0] != '-',
    ensures
        ghost_surface::has_slash(before + seq!['/'] + stem + behind, stem),
{
    let s = before + seq!['/'] + stem + behind;
    let at = before.len() as int;
    reveal_strlit("/");
    assert("/"@ =~= seq!['/']);
    assert(s.subrange(at, at + 1 + stem.len()) =~= "/"@ + stem);
    assert(text::stands_at(s, "/"@ + stem, at));
    assert(ghost_surface::slash_at(s, stem, at));
}

/// Nothing else is a call: where a text calls a command, it holds a slash and
/// its name with no word around them.
pub proof fn lemma_only_slash_calls(s: Seq<char>, stem: Seq<char>) -> (r: (Seq<char>, Seq<char>))
    requires
        ghost_surface::has_slash(s, stem),
    ensures
        s == r.0 + seq!['/'] + stem + r.1,
        r.0.len() > 0 ==> !in_word(r.0.last()),
        r.1.len() > 0 ==> !in_word(r.1[0]) && r.1[0] != '-',
{
    let at = choose|at: int| 0 <= at < s.len() && #[trigger] ghost_surface::slash_at(s, stem, at);
    let end = at + 1 + stem.len();
    reveal_strlit("/");
    assert("/"@ =~= seq!['/']);
    let r = (s.take(at), s.skip(end));
    assert(s =~= r.0 + s.subrange(at, end) + r.1);
    assert(s.subrange(at, end) =~= seq!['/'] + stem);
    assert(s =~= r.0 + seq!['/'] + stem + r.1);
    r
}

/// Whether the part of a path leads nowhere.
pub open spec fn leads_nowhere(part: Seq<char>) -> bool {
    part.len() == 0 || part == "."@
}

/// The name of a file is what stands behind the last slash of its path.
pub proof fn lemma_base(dir: Seq<char>, name: Seq<char>)
    requires
        forall|i: int| 0 <= i < name.len() ==> #[trigger] name[i] != '/',
        !leads_nowhere(name),
        name != ".."@,
    ensures
        ghost_report::base_of(dir + seq!['/'] + name) == name,
        ghost_report::base_of(name) == name,
        ghost_report::base_of(dir + seq!['/'] + name + seq!['/']) == name,
{
    laws::text::lemma_no_split(name, '/');
    laws::text::lemma_split(dir, '/', name);
    let a = text::split_on(dir + seq!['/'] + name, '/');
    assert(a.last() == name);
    let b = seq![name];
    assert(b.last() == name);
    let e = Seq::<char>::empty();
    laws::text::lemma_split(dir + seq!['/'] + name, '/', e);
    laws::text::lemma_no_split(e, '/');
    let path = dir + seq!['/'] + name + seq!['/'];
    assert(path =~= dir + seq!['/'] + name + seq!['/'] + e);
    let c = text::split_on(path, '/');
    assert(c =~= a + seq![e]);
    assert(c.drop_last() =~= a);
    assert(ghost_report::last_part(c) == ghost_report::last_part(a));
}

proof fn lemma_hash(file: Seq<char>, rest: Seq<char>)
    requires
        forall|i: int| 0 <= i < file.len() ==> #[trigger] file[i] != '#',
        rest.len() > 0 ==> rest[0] == '#',
    ensures
        ghost_report::hash_at(file + rest) == file.len(),
    decreases file.len(),
{
    let s = file + rest;
    if file.len() == 0 {
        assert(s =~= rest);
    } else {
        assert(file[0] != '#');
        let d = file.drop_first();
        assert(s.drop_first() =~= d + rest);
        assert forall|i: int| 0 <= i < d.len() implies #[trigger] d[i] != '#' by {
            assert(d[i] == file[i + 1]);
        }
        lemma_hash(d, rest);
    }
}

/// An entry in a document is to be removed from it, by hand.
pub proof fn lemma_document_entry(
    g: GhostView,
    archive_dir: Seq<char>,
    file: Seq<char>,
    place: Seq<char>,
)
    requires
        g.path == file + seq!['#'] + place,
        forall|i: int| 0 <= i < file.len() ==> #[trigger] file[i] != '#',
    ensures
        match ghost_report::ghost_action(g, archive_dir) {
            ActionView::Paste { label, text } => text == "Edit "@ + file
                + " and remove the entry at "@ + place + "."@,
            _ => false,
        },
{
    assert(g.path =~= file + (seq!['#'] + place));
    lemma_hash(file, seq!['#'] + place);
    assert(g.path.take(file.len() as int) =~= file);
    assert(g.path.skip(file.len() as int + 1) =~= place);
}

/// A file is to be moved into the archive, which is made first. The names are
/// quoted, so that a shell reads each as one word.
pub proof fn lemma_file_action(g: GhostView, archive_dir: Seq<char>)
    requires
        forall|i: int| 0 <= i < g.path.len() ==> #[trigger] g.path[i] != '#',
    ensures
        match ghost_report::ghost_action(g, archive_dir) {
            ActionView::Command { label, text } => text == "mkdir -p "@ + ghost_report::quoted(
                archive_dir,
            ) + " && mv "@ + ghost_report::quoted(g.path) + " "@ + ghost_report::quoted(
                archive_dir + "/"@,
            ),
            _ => false,
        },
{
    let e = Seq::<char>::empty();
    assert(g.path =~= g.path + e);
    lemma_hash(g.path, e);
}

proof fn lemma_offered(ps: Seq<OpenCodeProject>, i: int, k: int) -> (p: int)
    requires
        0 <= i < ps.len(),
        0 <= k < ghost_surface::offered_by(ps[i]).len(),
    ensures
        0 <= p < ghost_surface::offered_by_all(ps).len(),
        ghost_surface::offered_by_all(ps)[p] == ghost_surface::offered_by(ps[i])[k],
    decreases ps.len(),
{
    let d = ps.drop_last();
    if i < d.len() {
        assert(d[i] == ps[i]);
        lemma_offered(d, i, k)
    } else {
        ghost_surface::offered_by_all(d).len() + k
    }
}

proof fn lemma_opencode_ghost(
    inputs: GhostSurfaceInputs,
    i: int,
    k: int,
    stem: Seq<char>,
) -> (p: int)
    requires
        0 <= i < inputs.opencode@.len(),
        0 <= k < ghost_surface::offered_by(inputs.opencode@[i]).len(),
        is_stem(stem, ghost_surface::offered_by(inputs.opencode@[i])[k].basename),
        uncalled(stem, ghost_surface::known_names(&OpenCodeGhostAdapter, inputs)),
    ensures
        0 <= p < ghost_surface::ghosts_of(&OpenCodeGhostAdapter, inputs).len(),
        ghost_surface::ghosts_of(&OpenCodeGhostAdapter, inputs)[p] == ghost_surface::ghost_of(
            ghost_surface::offered_by(inputs.opencode@[i])[k],
            ghost_surface::sessions_in(inputs, SourceKind::Opencode),
        ),
{
    let adapter = &OpenCodeGhostAdapter;
    let c = ghost_surface::offered_by(inputs.opencode@[i])[k];
    let at = lemma_offered(inputs.opencode@, i, k);
    let all = ghost_surface::ghosts_of(adapter, inputs);
    let g = ghost_surface::ghost_of(
        c,
        ghost_surface::sessions_in(inputs, SourceKind::Opencode),
    );
    assert(adapter.offers(inputs)[at] == c);
    lemma_uncalled(stem, c.basename, ghost_surface::known_names(adapter, inputs));
    ghost_surface::lemma_ghosts(adapter, inputs, g);
    assert(all.contains(g));
    choose|p: int| 0 <= p < all.len() && all[p] == g
}

/// Every markdown file in the two directories of skills of a project of
/// OpenCode is reported where nothing calls its stem.
pub proof fn lemma_opencode_files(
    inputs: GhostSurfaceInputs,
    i: int,
    is_own: bool,
    j: int,
    stem: Seq<char>,
) -> (p: int)
    requires
        0 <= i < inputs.opencode@.len(),
        ({
            let files = if is_own {
                inputs.opencode@[i].own_skills@
            } else {
                inputs.opencode@[i].skills@
            };
            &&& 0 <= j < files.len()
            &&& ends(files[j].basename@, ".md"@) || ends(files[j].basename@, ".markdown"@)
            &&& is_stem(stem, files[j].basename@)
        }),
        uncalled(stem, ghost_surface::known_names(&OpenCodeGhostAdapter, inputs)),
    ensures
        0 <= p < ghost_surface::ghosts_of(&OpenCodeGhostAdapter, inputs).len(),
        is_ghost_of(
            ghost_surface::ghosts_of(&OpenCodeGhostAdapter, inputs)[p],
            SourceKind::Opencode,
            GhostFindingKind::GhostSkill,
            if is_own {
                inputs.opencode@[i].own_skills@[j]
            } else {
                inputs.opencode@[i].skills@[j]
            },
            ghost_surface::sessions_in(inputs, SourceKind::Opencode),
        ),
{
    let o = inputs.opencode@[i];
    let files = if is_own {
        o.own_skills@
    } else {
        o.skills@
    };
    lemma_ends(files[j].basename@, ".md"@);
    lemma_ends(files[j].basename@, ".markdown"@);
    let source = SourceKind::Opencode;
    let kind = GhostFindingKind::GhostSkill;
    let k = lemma_in_dir(source, kind, files, FileRule::Markdown, j);
    let before = ghost_surface::declared_skills(ghost_surface::setting(o.config, "skills"@)).len()
        + ghost_surface::declared_commands(
        ghost_surface::setting(o.config, "commands"@),
    ).len();
    let own = ghost_files::dir_candidates(
        source,
        kind,
        ghost_files::entry_views(o.own_skills@),
        FileRule::Markdown,
    ).len();
    let at = before + k + if is_own {
        0
    } else {
        own as int
    };
    assert(ghost_surface::offered_by(o)[at] == ghost_files::dir_candidates(
        source,
        kind,
        ghost_files::entry_views(files),
        FileRule::Markdown,
    )[k]);
    lemma_opencode_ghost(inputs, i, at, stem)
}

/// A command that the settings of a project declare is reported where nothing
/// calls it, at its place in the settings and with the size of its JSON.
pub proof fn lemma_opencode_commands(
    inputs: GhostSurfaceInputs,
    i: int,
    commands: Seq<(Seq<char>, Seq<char>)>,
    j: int,
    stem: Seq<char>,
) -> (p: int)
    requires
        0 <= i < inputs.opencode@.len(),
        ghost_surface::setting(inputs.opencode@[i].config, "commands"@) == Some(
            MemberView::Object(commands),
        ),
        0 <= j < commands.len(),
        is_stem(stem, commands[j].0),
        uncalled(stem, ghost_surface::known_names(&OpenCodeGhostAdapter, inputs)),
    ensures
        0 <= p < ghost_surface::ghosts_of(&OpenCodeGhostAdapter, inputs).len(),
        ({
            let g = ghost_surface::ghosts_of(&OpenCodeGhostAdapter, inputs)[p];
            let bytes = text::blen(
                if commands[j].1 == "null"@ {
                    "{}"@
                } else {
                    commands[j].1
                },
            );
            &&& g.source == SourceKind::Opencode
            &&& g.kind == GhostFindingKind::GhostCommand
            &&& g.path == inputs.opencode@[i].config_path@ + "#/commands/"@ + commands[j].0
            &&& 4 * g.size_tokens - 3 <= bytes <= 4 * g.size_tokens
            &&& g.counted is None
        }),
{
    let o = inputs.opencode@[i];
    let before = ghost_surface::declared_skills(
        ghost_surface::setting(o.config, "skills"@),
    ).len();
    assert(ghost_surface::offered_by(o)[before + j] == ghost_surface::declared_command(
        o.config_path@,
        commands[j],
    ));
    lemma_opencode_ghost(inputs, i, before + j, stem)
}

/// A skill that the settings of a project declare is reported where nothing
/// calls it, at its place in the settings, as one that is counted elsewhere.
pub proof fn lemma_opencode_skills(
    inputs: GhostSurfaceInputs,
    i: int,
    name: Seq<char>,
    stem: Seq<char>,
) -> (p: int)
    requires
        0 <= i < inputs.opencode@.len(),
        match ghost_surface::setting(inputs.opencode@[i].config, "skills"@) {
            Some(MemberView::Object(o)) => exists|k: int|
                0 <= k < o.len() && (#[trigger] o[k]).0 == name,
            Some(MemberView::Array(a)) => a.contains(Some(name)),
            _ => false,
        },
        is_stem(stem, name),
        uncalled(stem, ghost_surface::known_names(&OpenCodeGhostAdapter, inputs)),
    ensures
        0 <= p < ghost_surface::ghosts_of(&OpenCodeGhostAdapter, inputs).len(),
        ({
            let g = ghost_surface::ghosts_of(&OpenCodeGhostAdapter, inputs)[p];
            &&& g.source == SourceKind::Opencode
            &&& g.kind == GhostFindingKind::GhostSkill
            &&& g.path == inputs.opencode@[i].config_path@ + "#/skills/"@ + name
            &&& g.size_tokens == 0
            &&& g.counted == Some(true)
        }),
{
    let o = inputs.opencode@[i];
    let m = ghost_surface::setting(o.config, "skills"@);
    let names = ghost_surface::declared_names(m);
    match m {
        Some(MemberView::Object(fields)) => {
            let k = choose|k: int| 0 <= k < fields.len() && (#[trigger] fields[k]).0 == name;
            assert(names[k] == name);
        },
        Some(MemberView::Array(a)) => {
            lemma_strings(a, name);
        },
        _ => {},
    }
    assert(names.contains(name));
    groups::lemma_first_seen(names);
    let firsts = groups::first_seen(names);
    let skills = ghost_surface::declared_skills(m);
    order::lemma_sort_multiset(firsts, order::text_order());
    firsts.to_multiset_ensures();
    skills.to_multiset_ensures();
    assert(skills.to_multiset().count(name) == firsts.to_multiset().count(name));
    assert(firsts.contains(name));
    assert(skills.contains(name));
    let k = choose|k: int| 0 <= k < skills.len() && skills[k] == name;
    assert(ghost_surface::offered_by(o)[k] == ghost_surface::declared_skill(
        o.config_path@,
        name,
    ));
    lemma_opencode_ghost(inputs, i, k, stem)
}

proof fn lemma_strings(a: Seq<Option<Seq<char>>>, name: Seq<char>)
    requires
        a.contains(Some(name)),
    ensures
        ghost_surface::strings_of(a).contains(name),
    decreases a.len(),
{
    let d = a.drop_last();
    let k = choose|k: int| 0 <= k < a.len() && a[k] == Some(name);
    let all = ghost_surface::strings_of(a);
    if k < d.len() {
        assert(d[k] == Some(name));
        lemma_strings(d, name);
        let rest = ghost_surface::strings_of(d);
        let j = choose|j: int| 0 <= j < rest.len() && rest[j] == name;
        assert(all[j] == name);
    } else {
        assert(all[all.len() - 1] == name);
    }
}

/// A file that the catalog is charged for already costs its sessions nothing;
/// any other costs them its size.
pub proof fn lemma_billed(g: GhostView)
    ensures
        g.counted == Some(true) ==> g.billed() == 0,
        g.counted != Some(true) ==> g.billed() == g.size_tokens,
{
}

/// The sessions of a source are those that some turn of it belongs to.
pub proof fn lemma_source_sessions(turns: Seq<TurnRecord>, source: SourceKind, id: Seq<char>)
    ensures
        ghost_surface_inputs::source_sessions(turns, source).contains(id) <==> exists|i: int|
            0 <= i < turns.len() && (#[trigger] turns[i]).source == source && turns[i].session_id@
                == id,
    decreases turns.len(),
{
    if turns.len() > 0 {
        let d = turns.drop_last();
        lemma_source_sessions(d, source, id);
        let l = turns[turns.len() - 1];
        if exists|i: int|
            0 <= i < d.len() && (#[trigger] d[i]).source == source && d[i].session_id@ == id {
            let i = choose|i: int|
                0 <= i < d.len() && (#[trigger] d[i]).source == source && d[i].session_id@ == id;
            assert(turns[i] == d[i]);
        }
        if exists|i: int|
            0 <= i < turns.len() && (#[trigger] turns[i]).source == source && turns[i].session_id@
                == id {
            let i = choose|i: int|
                0 <= i < turns.len() && (#[trigger] turns[i]).source == source
                    && turns[i].session_id@ == id;
            if i < d.len() {
                assert(d[i] == turns[i]);
            }
        }
    }
}

} // verus!
