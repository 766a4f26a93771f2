//! Which of a user's own files are offered to a harness, and under which names
//! they can be called.

use crate::order;
use crate::order::Ordered;
use crate::outside;
use crate::records::SourceKind;
use crate::text;
use crate::tokens;
use vstd::prelude::*;

verus! {

/// What a file that is never called was meant to be.
#[derive(Debug, Clone, Copy, PartialEq, Eq, Structural, Hash)]
pub enum GhostFindingKind {
    GhostAgent,
    GhostSkill,
    GhostCommand,
    GhostPrompt,
    GhostRule,
    GhostMemory,
}

impl GhostFindingKind {
    /// The name of the kind.
    pub open spec fn kebab(self) -> Seq<char> {
        match self {
            GhostFindingKind::GhostAgent => "ghost-agent"@,
            GhostFindingKind::GhostSkill => "ghost-skill"@,
            GhostFindingKind::GhostCommand => "ghost-command"@,
            GhostFindingKind::GhostPrompt => "ghost-prompt"@,
            GhostFindingKind::GhostRule => "ghost-rule"@,
            GhostFindingKind::GhostMemory => "ghost-memory"@,
        }
    }

    /// The name of the kind.
    pub fn as_kebab(self) -> (r: &'static str)
        ensures
            r@ == self.kebab(),
    {
        match self {
            GhostFindingKind::GhostAgent => "ghost-agent",
            GhostFindingKind::GhostSkill => "ghost-skill",
            GhostFindingKind::GhostCommand => "ghost-command",
            GhostFindingKind::GhostPrompt => "ghost-prompt",
            GhostFindingKind::GhostRule => "ghost-rule",
            GhostFindingKind::GhostMemory => "ghost-memory",
        }
    }

    /// The name of what the file was meant to be.
    pub open spec fn bare(self) -> Seq<char> {
        match self {
            GhostFindingKind::GhostAgent => "agent"@,
            GhostFindingKind::GhostSkill => "skill"@,
            GhostFindingKind::GhostCommand => "command"@,
            GhostFindingKind::GhostPrompt => "prompt"@,
            GhostFindingKind::GhostRule => "rule"@,
            GhostFindingKind::GhostMemory => "memory"@,
        }
    }

    /// The name of what the file was meant to be.
    pub fn bare_name(self) -> (r: &'static str)
        ensures
            r@ == self.bare(),
    {
        match self {
            GhostFindingKind::GhostAgent => "agent",
            GhostFindingKind::GhostSkill => "skill",
            GhostFindingKind::GhostCommand => "command",
            GhostFindingKind::GhostPrompt => "prompt",
            GhostFindingKind::GhostRule => "rule",
            GhostFindingKind::GhostMemory => "memory",
        }
    }
}

/// The name of a kind is the name of what the file was meant to be, behind
/// `ghost-`.
pub proof fn lemma_kebab(k: GhostFindingKind)
    ensures
        k.kebab() == "ghost-"@ + k.bare(),
{
    reveal_strlit("ghost-");
    reveal_strlit("ghost-agent");
    reveal_strlit("ghost-skill");
    reveal_strlit("ghost-command");
    reveal_strlit("ghost-prompt");
    reveal_strlit("ghost-rule");
    reveal_strlit("ghost-memory");
    reveal_strlit("agent");
    reveal_strlit("skill");
    reveal_strlit("command");
    reveal_strlit("prompt");
    reveal_strlit("rule");
    reveal_strlit("memory");
    assert(k.kebab() =~= "ghost-"@ + k.bare());
}

/// Something that a harness offers to every session.
#[derive(Debug, Clone, PartialEq)]
pub struct GhostCandidate {
    pub source: SourceKind,
    pub kind: GhostFindingKind,
    pub path: String,
    pub basename: String,
    pub size_tokens: u64,
    /// Whether its cost is already counted with that of the declared catalog.
    pub counted_by_catalog_bloat: Option<bool>,
}

/// What a [`GhostCandidate`] says.
#[verifier::ext_equal]
pub struct CandidateView {
    pub source: SourceKind,
    pub kind: GhostFindingKind,
    pub path: Seq<char>,
    pub basename: Seq<char>,
    pub size_tokens: int,
    pub counted: Option<bool>,
}

impl View for GhostCandidate {
    type V = CandidateView;

    open spec fn view(&self) -> CandidateView {
        CandidateView {
            source: self.source,
            kind: self.kind,
            path: self.path@,
            basename: self.basename@,
            size_tokens: self.size_tokens as int,
            counted: self.counted_by_catalog_bloat,
        }
    }
}

/// What the candidates say.
pub open spec fn candidate_views(v: Seq<GhostCandidate>) -> Seq<CandidateView> {
    v.map_values(|c: GhostCandidate| c@)
}

/// The place of the last `c` in `s`; -1 where there is none.
pub open spec fn last_at(s: Seq<char>, c: char) -> int
    decreases s.len(),
{
    if s.len() == 0 {
        -1
    } else if s.last() == c {
        s.len() - 1
    } else {
        last_at(s.drop_last(), c)
    }
}

/// A file name without its extension. A name that starts with its only dot has
/// none.
pub open spec fn stem_of(basename: Seq<char>) -> Seq<char> {
    let dot = last_at(basename, '.');
    if dot > 0 {
        basename.take(dot)
    } else {
        basename
    }
}

/// A file name without its extension.
pub fn strip_extension(basename: &str) -> (r: String)
    ensures
        r@ == stem_of(basename@),
{
    let cs = text::chars_of(basename);
    let mut i: usize = cs.len();
    assert(cs@.take(i as int) =~= cs@);
    while i > 0 && cs[i - 1] != '.'
        invariant
            i <= cs@.len(),
            last_at(cs@, '.') == last_at(cs@.take(i as int), '.'),
        ensures
            i <= cs@.len(),
            last_at(cs@, '.') == i - 1,
        decreases i,
    {
        assert(cs@.take(i as int).drop_last() =~= cs@.take(i - 1));
        i = i - 1;
    }
    if i > 1 {
        assert(cs@.subrange(0, i - 1) =~= cs@.take(i - 1));
        text::string_of(&cs, 0, i - 1)
    } else {
        basename.to_owned()
    }
}

/// The names that a file answers to: its stem, and the stem in lower case
/// where that differs.
pub open spec fn lookups_of(basename: Seq<char>) -> Seq<Seq<char>> {
    let stem = stem_of(basename);
    if stem == outside::lowercase(stem) {
        seq![stem]
    } else {
        seq![stem, outside::lowercase(stem)]
    }
}

/// The names that a file answers to.
pub fn names_for_lookup(basename: &str) -> (r: Vec<String>)
    ensures
        text::views(r@) == lookups_of(basename@),
{
    let stem = strip_extension(basename);
    let lower = outside::to_lowercase(stem.as_str());
    let mut out: Vec<String> = Vec::new();
    if text::same(stem.as_str(), lower.as_str()) {
        out.push(stem);
    } else {
        out.push(stem);
        out.push(lower);
    }
    assert(text::views(out@) =~= lookups_of(basename@));
    out
}

/// Whether a file name is that of a markdown document.
pub open spec fn names_markdown(name: Seq<char>) -> bool {
    text::has_suffix(name, ".md"@) || text::has_suffix(name, ".markdown"@)
}

/// Whether a file name is that of a markdown document.
pub fn is_markdown(name: &str) -> (r: bool)
    ensures
        r == names_markdown(name@),
{
    text::ends_with(name, ".md") || text::ends_with(name, ".markdown")
}

/// An ASCII letter in lower case; any other character as it is.
pub open spec fn ascii_lower(c: char) -> char {
    if 'A' <= c && c <= 'Z' {
        (c as u32 + 32) as char
    } else {
        c
    }
}

fn lower_char(c: char) -> (r: char)
    ensures
        r == ascii_lower(c),
{
    if 'A' <= c && c <= 'Z' {
        (c as u8 + 32) as char
    } else {
        c
    }
}

/// The string with its ASCII letters in lower case.
pub fn to_ascii_lower(s: &str) -> (r: String)
    ensures
        r@ == s@.map_values(|c: char| ascii_lower(c)),
{
    let cs = text::chars_of(s);
    let mut out = String::new();
    let mut i: usize = 0;
    while i < cs.len()
        invariant
            i <= cs@.len(),
            out@.len() == i,
            forall|k: int| 0 <= k < i ==> #[trigger] out@[k] == ascii_lower(cs@[k]),
        decreases cs@.len() - i,
    {
        out.push(lower_char(cs[i]));
        i = i + 1;
    }
    assert(out@ =~= s@.map_values(|c: char| ascii_lower(c)));
    out
}

/// Whether a name ends like that of data, settings, a log, a picture or an
/// archive.
pub open spec fn has_data_ending(name: Seq<char>) -> bool {
    ||| text::has_suffix(name, ".json"@)
    ||| text::has_suffix(name, ".jsonl"@)
    ||| text::has_suffix(name, ".yaml"@)
    ||| text::has_suffix(name, ".yml"@)
    ||| text::has_suffix(name, ".toml"@)
    ||| text::has_suffix(name, ".lock"@)
    ||| text::has_suffix(name, ".log"@)
    ||| text::has_suffix(name, ".tsbuildinfo"@)
    ||| text::has_suffix(name, ".png"@)
    ||| text::has_suffix(name, ".jpg"@)
    ||| text::has_suffix(name, ".jpeg"@)
    ||| text::has_suffix(name, ".gif"@)
    ||| text::has_suffix(name, ".webp"@)
    ||| text::has_suffix(name, ".pdf"@)
    ||| text::has_suffix(name, ".zip"@)
    ||| text::has_suffix(name, ".tar"@)
    ||| text::has_suffix(name, ".gz"@)
}

/// Whether a file name can be that of a text for a harness: it is not hidden
/// and does not end, in whatever case, like that of something else.
pub open spec fn names_plain_text(name: Seq<char>) -> bool {
    !text::has_prefix(name, "."@) && !has_data_ending(
        name.map_values(|c: char| ascii_lower(c)),
    )
}

/// Whether a file name can be that of a text for a harness.
pub fn is_plain_text_surface(name: &str) -> (r: bool)
    ensures
        r == names_plain_text(name@),
{
    if text::starts_with(name, ".") {
        return false;
    }
    let l = to_ascii_lower(name);
    let lower = l.as_str();
    !(text::ends_with(lower, ".json") || text::ends_with(lower, ".jsonl") || text::ends_with(
        lower,
        ".yaml",
    ) || text::ends_with(lower, ".yml") || text::ends_with(lower, ".toml") || text::ends_with(
        lower,
        ".lock",
    ) || text::ends_with(lower, ".log") || text::ends_with(lower, ".tsbuildinfo")
        || text::ends_with(lower, ".png") || text::ends_with(lower, ".jpg") || text::ends_with(
        lower,
        ".jpeg",
    ) || text::ends_with(lower, ".gif") || text::ends_with(lower, ".webp") || text::ends_with(
        lower,
        ".pdf",
    ) || text::ends_with(lower, ".zip") || text::ends_with(lower, ".tar") || text::ends_with(
        lower,
        ".gz",
    ))
}

/// Which files of a directory are offered.
#[derive(Debug, Clone, Copy, PartialEq, Eq, Structural, Hash)]
pub enum FileRule {
    Markdown,
    PlainText,
}

impl FileRule {
    /// Whether a file of that name is offered.
    pub open spec fn takes(self, name: Seq<char>) -> bool {
        match self {
            FileRule::Markdown => names_markdown(name),
            FileRule::PlainText => names_plain_text(name),
        }
    }

    /// Whether a file of that name is offered.
    pub fn accepts(self, name: &str) -> (r: bool)
        ensures
            r == self.takes(name@),
    {
        match self {
            FileRule::Markdown => is_markdown(name),
            FileRule::PlainText => is_plain_text_surface(name),
        }
    }
}

/// A regular file of a directory.
#[derive(Debug, Clone, PartialEq)]
pub struct DirEntry {
    pub path: String,
    pub basename: String,
    /// Number of bytes.
    pub size: u64,
}

/// What a [`DirEntry`] says.
#[verifier::ext_equal]
pub struct EntryView {
    pub path: Seq<char>,
    pub basename: Seq<char>,
    pub size: u64,
}

impl View for DirEntry {
    type V = EntryView;

    open spec fn view(&self) -> EntryView {
        EntryView { path: self.path@, basename: self.basename@, size: self.size }
    }
}

/// What the entries say.
pub open spec fn entry_views(v: Seq<DirEntry>) -> Seq<EntryView> {
    v.map_values(|e: DirEntry| e@)
}

/// The entries that the rule takes, in their order.
pub open spec fn taken(entries: Seq<EntryView>, rule: FileRule) -> Seq<EntryView>
    decreases entries.len(),
{
    if entries.len() == 0 {
        Seq::empty()
    } else if rule.takes(entries.last().basename) {
        taken(entries.drop_last(), rule).push(entries.last())
    } else {
        taken(entries.drop_last(), rule)
    }
}

/// Entries in the order of their names.
pub open spec fn name_order() -> spec_fn(EntryView, EntryView) -> bool {
    |a: EntryView, b: EntryView| text::str_lt(a.basename, b.basename)
}

/// The entries that the rule takes, in the order of their names.
pub open spec fn listed(entries: Seq<EntryView>, rule: FileRule) -> Seq<EntryView> {
    order::stable_sort(taken(entries, rule), name_order())
}

impl Ordered for DirEntry {
    open spec fn before(self, other: Self) -> bool {
        text::str_lt(self.basename@, other.basename@)
    }

    fn is_before(&self, other: &Self) -> (r: bool) {
        text::less(self.basename.as_str(), other.basename.as_str())
    }
}

/// The files of a directory that the rule takes, in the order of their names,
/// whatever order the directory lists them in.
pub fn list_dir_files(entries: &Vec<DirEntry>, rule: FileRule) -> (r: Vec<DirEntry>)
    ensures
        entry_views(r@) == listed(entry_views(entries@), rule),
{
    let ghost all = entry_views(entries@);
    let mut out: Vec<DirEntry> = Vec::new();
    let mut i: usize = 0;
    assert(all.take(0) =~= Seq::<EntryView>::empty());
    assert(entry_views(out@) =~= Seq::<EntryView>::empty());
    while i < entries.len()
        invariant
            i <= entries@.len(),
            all == entry_views(entries@),
            entry_views(out@) == taken(all.take(i as int), rule),
        decreases entries@.len() - i,
    {
        assert(all.take(i + 1).drop_last() =~= all.take(i as int));
        let e = &entries[i];
        if rule.accepts(e.basename.as_str()) {
            let ghost before = entry_views(out@);
            out.push(
                DirEntry { path: e.path.clone(), basename: e.basename.clone(), size: e.size },
            );
            assert(entry_views(out@) =~= before.push(entries@[i as int]@));
        }
        i = i + 1;
    }
    assert(all.take(i as int) =~= all);
    let ghost given = out@;
    let sorted = order::sort(out);
    proof {
        let f = |e: DirEntry| e@;
        assert(entry_views(given) =~= given.map_values(f));
        order::lemma_sort_map(given, f, order::order_of::<DirEntry>(), name_order());
        assert(entry_views(sorted@) =~= sorted@.map_values(f));
    }
    sorted
}

/// A file as a candidate.
pub open spec fn file_candidate(
    source: SourceKind,
    kind: GhostFindingKind,
    e: EntryView,
) -> CandidateView {
    CandidateView {
        source,
        kind,
        path: e.path,
        basename: e.basename,
        size_tokens: tokens::tokens_of(e.size as int),
        counted: None,
    }
}

/// The files of a directory that the rule takes, as candidates.
pub open spec fn dir_candidates(
    source: SourceKind,
    kind: GhostFindingKind,
    entries: Seq<EntryView>,
    rule: FileRule,
) -> Seq<CandidateView> {
    listed(entries, rule).map_values(|e: EntryView| file_candidate(source, kind, e))
}

/// Appends the files of a directory that the rule takes.
pub fn push_dir(
    out: &mut Vec<GhostCandidate>,
    source: SourceKind,
    kind: GhostFindingKind,
    entries: &Vec<DirEntry>,
    rule: FileRule,
)
    ensures
        candidate_views(final(out)@) == candidate_views(old(out)@) + dir_candidates(
            source,
            kind,
            entry_views(entries@),
            rule,
        ),
{
    let files = list_dir_files(entries, rule);
    let ghost start = candidate_views(out@);
    let ghost all = dir_candidates(source, kind, entry_views(entries@), rule);
    let mut i: usize = 0;
    assert(start + all.take(0) =~= start);
    while i < files.len()
        invariant
            i <= files@.len(),
            entry_views(files@) == listed(entry_views(entries@), rule),
            all == dir_candidates(source, kind, entry_views(entries@), rule),
            candidate_views(out@) == start + all.take(i as int),
        decreases files@.len() - i,
    {
        let ghost before = candidate_views(out@);
        let f = &files[i];
        let c = GhostCandidate {
            source,
            kind,
            path: f.path.clone(),
            basename: f.basename.clone(),
            size_tokens: tokens::tokens_from_bytes(f.size),
            counted_by_catalog_bloat: None,
        };
        assert(entry_views(files@)[i as int] == files@[i as int]@);
        assert(c@ == all[i as int]);
        out.push(c);
        assert(candidate_views(out@) =~= before.push(all[i as int]));
        assert(start + all.take(i + 1) =~= (start + all.take(i as int)).push(all[i as int]));
        i = i + 1;
    }
    assert(entry_views(files@).len() == files@.len());
    assert(all.take(i as int) =~= all);
}

/// What is listed is what the rule takes of the directory, in the order of the
/// names.
pub proof fn lemma_listed(entries: Seq<EntryView>, rule: FileRule)
    ensures
        order::in_order(listed(entries, rule), name_order()),
        forall|i: int|
            0 <= i < listed(entries, rule).len() ==> rule.takes(
                (#[trigger] listed(entries, rule)[i]).basename,
            ) && entries.contains(listed(entries, rule)[i]),
        forall|i: int|
            0 <= i < entries.len() && rule.takes((#[trigger] entries[i]).basename) ==> listed(
                entries,
                rule,
            ).contains(entries[i]),
{
    let t = taken(entries, rule);
    let r = listed(entries, rule);
    lemma_taken(entries, rule);
    assert forall|a: EntryView| !#[trigger] name_order()(a, a) by {
        text::lemma_str_lt(a.basename, a.basename, a.basename);
    }
    assert forall|a: EntryView, b: EntryView, c: EntryView| #[trigger]
        name_order()(a, b) && #[trigger] name_order()(b, c) implies name_order()(a, c) by {
        text::lemma_str_lt(a.basename, b.basename, c.basename);
    }
    assert forall|a: EntryView, b: EntryView, c: EntryView| #[trigger]
        name_order()(a, c) implies name_order()(a, b) || #[trigger] name_order()(b, c) by {
        text::lemma_str_lt(a.basename, b.basename, c.basename);
        text::lemma_str_lt(b.basename, a.basename, c.basename);
    }
    assert(order::strict_weak(name_order()));
    order::lemma_sort_in_order(t, name_order());
    order::lemma_sort_inside(t, name_order());
    order::lemma_sort_multiset(t, name_order());
    t.to_multiset_ensures();
    r.to_multiset_ensures();
    assert forall|i: int| 0 <= i < r.len() implies rule.takes((#[trigger] r[i]).basename)
        && entries.contains(r[i]) by {
        assert(t.contains(r[i]));
    }
    assert forall|i: int| 0 <= i < entries.len() && rule.takes(
        (#[trigger] entries[i]).basename,
    ) implies r.contains(entries[i]) by {
        assert(t.contains(entries[i]));
        assert(t.to_multiset().count(entries[i]) > 0);
        assert(r.to_multiset().count(entries[i]) > 0);
    }
}

proof fn lemma_taken(entries: Seq<EntryView>, rule: FileRule)
    ensures
        forall|e: EntryView| #[trigger]
            taken(entries, rule).contains(e) <==> entries.contains(e) && rule.takes(e.basename),
    decreases entries.len(),
{
    let t = taken(entries, rule);
    if entries.len() > 0 {
        let d = entries.drop_last();
        lemma_taken(d, rule);
        let td = taken(d, rule);
        assert forall|e: EntryView| #[trigger] t.contains(e) <==> entries.contains(e)
            && rule.takes(e.basename) by {
            if t.contains(e) {
                let k = choose|k: int| 0 <= k < t.len() && t[k] == e;
                if k < td.len() {
                    assert(td[k] == e);
                    assert(td.contains(e));
                    let j = choose|j: int| 0 <= j < d.len() && d[j] == e;
                    assert(entries[j] == e);
                } else {
                    assert(entries[entries.len() - 1] == e);
                }
            }
            if entries.contains(e) && rule.takes(e.basename) {
                let j = choose|j: int| 0 <= j < entries.len() && entries[j] == e;
                if j < d.len() {
                    assert(d[j] == e);
                    assert(td.contains(e));
                    let k = choose|k: int| 0 <= k < td.len() && td[k] == e;
                    assert(t[k] == e);
                } else {
                    assert(t[t.len() - 1] == e);
                }
            }
        }
    }
}

} // verus!
