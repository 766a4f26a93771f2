//! Files that a user offers to every session of a harness and that no session
//! ever calls.
//!
//! Agents, skills, commands, prompts, rules and memories ride in the prompt of
//! every session. One that is never called costs its tokens each time and helps
//! nobody. What a harness offers is compared with the names that its sessions
//! called; names that were typed as slash commands are mined from what the user
//! wrote. Each harness goes by its own sessions alone.

use crate::ghost_files;
use crate::ghost_files::{
    names_for_lookup, push_dir, strip_extension, CandidateView, DirEntry, EntryView, FileRule,
    GhostCandidate, GhostFindingKind,
};
use crate::groups;
use crate::hotspots::BySession;
use crate::names::{BySource, NameSet};
use crate::order;
use crate::outside;
use crate::outside::{JsonMember, MemberView};
use crate::records::SourceKind;
use crate::text;
use crate::tokens;
use vstd::prelude::*;

verus! {

/// The directories of the harness with agents, skills and commands.
#[derive(Debug)]
pub struct ClaudeSurface {
    pub agents: Vec<DirEntry>,
    pub skills: Vec<DirEntry>,
    pub commands: Vec<DirEntry>,
}

/// The directories of Codex.
#[derive(Debug)]
pub struct CodexSurface {
    pub prompts: Vec<DirEntry>,
    pub skills: Vec<DirEntry>,
    pub rules: Vec<DirEntry>,
    pub memories: Vec<DirEntry>,
}

/// A project that OpenCode works in.
#[derive(Debug)]
pub struct OpenCodeProject {
    pub config_path: String,
    /// What the settings file holds, where there is one that can be read.
    pub config: Option<String>,
    /// The files of `.opencode/skills`.
    pub own_skills: Vec<DirEntry>,
    /// The files of `skills`.
    pub skills: Vec<DirEntry>,
}

/// What the search for files that are never called goes by.
pub struct GhostSurfaceInputs {
    /// The names that the sessions of a source called.
    pub observed_names_by_source: BySource<NameSet>,
    /// Number of sessions of a source.
    pub session_count_by_source: BySource<u64>,
    pub claude: ClaudeSurface,
    pub codex: CodexSurface,
    pub opencode: Vec<OpenCodeProject>,
    /// What the user wrote in the sessions of a source, where it is known.
    pub user_turn_text_by_session: Option<BySource<Vec<BySession<String>>>>,
}

/// A file that is offered to every session and never called.
#[derive(Debug, Clone, PartialEq)]
pub struct GhostSurfaceFinding {
    pub source: SourceKind,
    pub kind: GhostFindingKind,
    pub path: String,
    pub size_tokens: u64,
    pub session_count: u64,
    pub counted_by_catalog_bloat: Option<bool>,
}

/// What a [`GhostSurfaceFinding`] says.
#[verifier::ext_equal]
pub struct GhostView {
    pub source: SourceKind,
    pub kind: GhostFindingKind,
    pub path: Seq<char>,
    pub size_tokens: int,
    pub session_count: u64,
    pub counted: Option<bool>,
}

impl View for GhostSurfaceFinding {
    type V = GhostView;

    open spec fn view(&self) -> GhostView {
        GhostView {
            source: self.source,
            kind: self.kind,
            path: self.path@,
            size_tokens: self.size_tokens as int,
            session_count: self.session_count,
            counted: self.counted_by_catalog_bloat,
        }
    }
}

/// What the findings say.
pub open spec fn ghost_views(v: Seq<GhostSurfaceFinding>) -> Seq<GhostView> {
    v.map_values(|g: GhostSurfaceFinding| g@)
}

impl GhostView {
    /// Tokens that each session is charged for: none where the catalog is
    /// charged for them already.
    pub open spec fn billed(self) -> int {
        if self.counted == Some(true) {
            0
        } else {
            self.size_tokens
        }
    }
}

impl GhostSurfaceFinding {
    /// Tokens that each session is charged for.
    pub fn billed_tokens(&self) -> (r: u64)
        ensures
            r == self@.billed(),
    {
        match self.counted_by_catalog_bloat {
            Some(true) => 0,
            _ => self.size_tokens,
        }
    }
}

/// The text that a user wrote, by session.
pub open spec fn texts_in(inputs: GhostSurfaceInputs, source: SourceKind) -> Seq<BySession<String>> {
    match inputs.user_turn_text_by_session {
        Some(m) => match m.at(source) {
            Some(t) => t@,
            None => Seq::empty(),
        },
        None => Seq::empty(),
    }
}

/// The names that the sessions of a source called.
pub open spec fn observed_in(inputs: GhostSurfaceInputs, source: SourceKind) -> Set<Seq<char>> {
    match inputs.observed_names_by_source.at(source) {
        Some(s) => s@,
        None => Set::empty(),
    }
}

/// Number of sessions of a source.
pub open spec fn sessions_in(inputs: GhostSurfaceInputs, source: SourceKind) -> u64 {
    match inputs.session_count_by_source.at(source) {
        Some(n) => n,
        None => 0,
    }
}

/// A harness: what it offers, and which names its users type.
pub trait GhostSurfaceAdapter {
    /// The source of the sessions of the harness.
    spec fn harness(&self) -> SourceKind;

    /// What the harness offers to every session.
    spec fn offers(&self, inputs: GhostSurfaceInputs) -> Seq<CandidateView>;

    /// Whether a user of the harness typed the name.
    spec fn typed(
        &self,
        inputs: GhostSurfaceInputs,
        candidates: Seq<CandidateView>,
        name: Seq<char>,
    ) -> bool;

    /// The source of the sessions of the harness.
    fn source(&self) -> (r: SourceKind)
        ensures
            r == self.harness(),
    ;

    /// What the harness offers to every session.
    fn enumerate(&self, inputs: &GhostSurfaceInputs) -> (r: Vec<GhostCandidate>)
        ensures
            ghost_files::candidate_views(r@) == self.offers(*inputs),
    ;

    /// The names that the users of the harness typed.
    fn observed_names(
        &self,
        inputs: &GhostSurfaceInputs,
        candidates: &Vec<GhostCandidate>,
    ) -> (r: NameSet)
        ensures
            forall|n: Seq<char>| #[trigger]
                r@.contains(n) == self.typed(
                    *inputs,
                    ghost_files::candidate_views(candidates@),
                    n,
                ),
    ;
}

/// The mark that this harness leaves of a slash command.
pub open spec fn command_mark() -> Seq<char> {
    "(?i)<command-name>\\s*/?([\\w./:\\-]+?)\\s*</command-name>"@
}

/// The characters of `s` up to the first white space.
pub open spec fn up_to_space(s: Seq<char>) -> Seq<char>
    decreases s.len(),
{
    if s.len() == 0 || text::is_space(s[0]) {
        Seq::empty()
    } else {
        seq![s[0]] + up_to_space(s.drop_first())
    }
}

/// The first word of `s`; empty where there is none.
pub open spec fn first_word(s: Seq<char>) -> Seq<char> {
    up_to_space(text::trim_start_of(s))
}

/// The first word of a string.
fn head_word(s: &str) -> (r: String)
    ensures
        r@ == first_word(s@),
{
    let cs = text::chars_of(s);
    let n: usize = cs.len();
    let mut lo: usize = 0;
    assert(cs@.skip(0) =~= cs@);
    while lo < n && text::is_whitespace(cs[lo])
        invariant
            n == cs@.len(),
            lo <= n,
            text::trim_start_of(cs@) == text::trim_start_of(cs@.skip(lo as int)),
        ensures
            lo <= n,
            text::trim_start_of(cs@) == cs@.skip(lo as int),
        decreases n - lo,
    {
        assert(cs@.skip(lo as int)[0] == cs@[lo as int]);
        assert(cs@.skip(lo as int).drop_first() =~= cs@.skip(lo + 1));
        lo = lo + 1;
    }
    let ghost rest = cs@.skip(lo as int);
    let mut out = String::new();
    let mut i: usize = lo;
    assert(out@ + up_to_space(cs@.skip(i as int)) =~= up_to_space(rest));
    while i < n && !text::is_whitespace(cs[i])
        invariant
            n == cs@.len(),
            lo <= i <= n,
            out@ + up_to_space(cs@.skip(i as int)) == up_to_space(rest),
        ensures
            out@ == up_to_space(rest),
        decreases n - i,
    {
        let ghost tail = cs@.skip(i as int);
        assert(tail[0] == cs@[i as int]);
        assert(tail.drop_first() =~= cs@.skip(i + 1));
        out.push(cs[i]);
        assert(out@ + up_to_space(cs@.skip(i + 1)) =~= up_to_space(rest));
        i = i + 1;
        proof {
            if i == n || text::is_space(cs@[i as int]) {
                assert(i < n ==> cs@.skip(i as int)[0] == cs@[i as int]);
                assert(out@ + up_to_space(cs@.skip(i as int)) =~= out@);
            }
        }
    }
    out
}

/// The command that a mark names, as `first_word` of the first group.
pub open spec fn command_of(groups: Seq<Option<Seq<char>>>) -> Option<Seq<char>> {
    if groups.len() > 1 && groups[1] is Some && first_word(groups[1]->Some_0).len() > 0 {
        Some(first_word(groups[1]->Some_0))
    } else {
        None
    }
}

/// Whether one of the marks names the command.
pub open spec fn some_mark_names(marks: Seq<Seq<Option<Seq<char>>>>, name: Seq<char>) -> bool {
    exists|i: int| 0 <= i < marks.len() && command_of(#[trigger] marks[i]) == Some(name)
}

/// The groups of the marks as character sequences.
pub open spec fn mark_views(marks: Seq<Vec<Option<String>>>) -> Seq<Seq<Option<Seq<char>>>> {
    marks.map_values(|g: Vec<Option<String>>| outside::group_views(g@))
}

/// Adds the commands that the marks name.
pub fn add_marked(out: &mut NameSet, marks: &Vec<Vec<Option<String>>>)
    ensures
        forall|n: Seq<char>| #[trigger]
            final(out)@.contains(n) == (old(out)@.contains(n) || some_mark_names(
                mark_views(marks@),
                n,
            )),
{
    let ghost start = out@;
    let ghost all = mark_views(marks@);
    let mut i: usize = 0;
    while i < marks.len()
        invariant
            i <= marks@.len(),
            all == mark_views(marks@),
            forall|n: Seq<char>| #[trigger]
                out@.contains(n) == (start.contains(n) || some_mark_names(all.take(i as int), n)),
        decreases marks@.len() - i,
    {
        let g = &marks[i];
        let ghost before = out@;
        assert(all[i as int] == outside::group_views(g@));
        if g.len() > 1 {
            match &g[1] {
                Some(raw) => {
                    let head = head_word(raw.as_str());
                    if !text::is_empty(head.as_str()) {
                        out.insert(head.as_str());
                    }
                },
                None => {},
            }
        }
        proof {
            let c = command_of(all[i as int]);
            assert(out@ == (match c {
                Some(h) => before.insert(h),
                None => before,
            }));
            assert forall|n: Seq<char>| #[trigger]
                out@.contains(n) == (start.contains(n) || some_mark_names(all.take(i + 1), n)) by {
                let p = all.take(i as int);
                let q = all.take(i + 1);
                assert(before.contains(n) == (start.contains(n) || some_mark_names(p, n)));
                if some_mark_names(p, n) {
                    let k = choose|k: int|
                        0 <= k < p.len() && command_of(#[trigger] p[k]) == Some(n);
                    assert(command_of(q[k]) == Some(n));
                }
                if some_mark_names(q, n) {
                    let k = choose|k: int|
                        0 <= k < q.len() && command_of(#[trigger] q[k]) == Some(n);
                    if k < i {
                        assert(command_of(p[k]) == Some(n));
                    }
                }
                if c == Some(n) {
                    assert(command_of(q[i as int]) == Some(n));
                }
            }
        }
        i = i + 1;
    }
    assert(all.take(i as int) =~= all);
}

/// Whether a mark in the text names the command.
pub open spec fn text_marks(t: Seq<char>, name: Seq<char>) -> bool {
    t.len() > 0 && some_mark_names(outside::regex_all_groups(command_mark(), t), name)
}

/// Whether a mark in one of the texts names the command.
pub open spec fn marked_in(texts: Seq<BySession<String>>, name: Seq<char>) -> bool {
    exists|i: int, j: int|
        0 <= i < texts.len() && 0 <= j < texts[i].records@.len() && text_marks(
            (#[trigger] texts[i].records@[j])@,
            name,
        )
}

fn add_marked_in_text(out: &mut NameSet, t: &str)
    ensures
        forall|n: Seq<char>| #[trigger]
            final(out)@.contains(n) == (old(out)@.contains(n) || text_marks(t@, n)),
{
    if text::is_empty(t) {
        return;
    }
    let marks = outside::regex_captures_iter(
        "(?i)<command-name>\\s*/?([\\w./:\\-]+?)\\s*</command-name>",
        t,
    );
    assert(mark_views(marks@) =~= outside::regex_all_groups(command_mark(), t@));
    add_marked(out, &marks);
}

/// The commands that the marks in the texts name: the head of what stands
/// between the tags, without a slash in front.
pub fn mine_claude_command_names(texts: Option<&Vec<BySession<String>>>) -> (r: NameSet)
    ensures
        forall|n: Seq<char>| #[trigger]
            r@.contains(n) == (texts is Some && marked_in(texts->Some_0@, n)),
{
    let mut out = NameSet::new();
    match texts {
        Some(list) => {
            let mut i: usize = 0;
            while i < list.len()
                invariant
                    i <= list@.len(),
                    forall|n: Seq<char>| #[trigger]
                        out@.contains(n) == marked_in(list@.take(i as int), n),
                decreases list@.len() - i,
            {
                let ghost before = out@;
                let records = &list[i].records;
                let mut j: usize = 0;
                while j < records.len()
                    invariant
                        j <= records@.len(),
                        forall|n: Seq<char>| #[trigger]
                            out@.contains(n) == (before.contains(n) || exists|k: int|
                                0 <= k < j && text_marks((#[trigger] records@[k])@, n)),
                    decreases records@.len() - j,
                {
                    let ghost mid = out@;
                    add_marked_in_text(&mut out, records[j].as_str());
                    assert forall|n: Seq<char>| #[trigger]
                        out@.contains(n) == (before.contains(n) || exists|k: int|
                            0 <= k < j + 1 && text_marks((#[trigger] records@[k])@, n)) by {
                        assert(out@.contains(n) == (mid.contains(n) || text_marks(
                            records@[j as int]@,
                            n,
                        )));
                        if mid.contains(n) && !before.contains(n) {
                            let k = choose|k: int|
                                0 <= k < j && text_marks((#[trigger] records@[k])@, n);
                            assert(text_marks(records@[k]@, n));
                        }
                    }
                    j = j + 1;
                }
                assert forall|n: Seq<char>| #[trigger]
                    out@.contains(n) == marked_in(list@.take(i + 1), n) by {
                    let p = list@.take(i as int);
                    let q = list@.take(i + 1);
                    assert(before.contains(n) == marked_in(p, n));
                    if marked_in(p, n) {
                        let (a, b) = choose|a: int, b: int|
                            0 <= a < p.len() && 0 <= b < p[a].records@.len() && text_marks(
                                (#[trigger] p[a].records@[b])@,
                                n,
                            );
                        assert(text_marks(q[a].records@[b]@, n));
                    }
                    if marked_in(q, n) {
                        let (a, b) = choose|a: int, b: int|
                            0 <= a < q.len() && 0 <= b < q[a].records@.len() && text_marks(
                                (#[trigger] q[a].records@[b])@,
                                n,
                            );
                        if a < i {
                            assert(text_marks(p[a].records@[b]@, n));
                        } else {
                            assert(text_marks(records@[b]@, n));
                        }
                    }
                    if out@.contains(n) && !before.contains(n) {
                        let k = choose|k: int|
                            0 <= k < records@.len() && text_marks((#[trigger] records@[k])@, n);
                        assert(text_marks(q[i as int].records@[k]@, n));
                    }
                }
                i = i + 1;
            }
            assert(list@.take(i as int) =~= list@);
        },
        None => {},
    }
    out
}

/// An ASCII letter or digit, or an underscore.
pub open spec fn is_word(c: char) -> bool {
    ('a' <= c && c <= 'z') || ('A' <= c && c <= 'Z') || ('0' <= c && c <= '9') || c == '_'
}

fn is_word_char(c: char) -> (r: bool)
    ensures
        r == is_word(c),
{
    ('a' <= c && c <= 'z') || ('A' <= c && c <= 'Z') || ('0' <= c && c <= '9') || c == '_'
}

/// Whether a slash and `stem` stand at `at`, not behind a word character, and
/// not before a word character or a hyphen.
pub open spec fn slash_at(s: Seq<char>, stem: Seq<char>, at: int) -> bool {
    let end = at + 1 + stem.len();
    &&& text::stands_at(s, "/"@ + stem, at)
    &&& at == 0 || !is_word(s[at - 1])
    &&& end >= s.len() || !(is_word(s[end]) || s[end] == '-')
}

/// Whether `stem` stands somewhere in `s` as a slash command.
pub open spec fn has_slash(s: Seq<char>, stem: Seq<char>) -> bool {
    exists|at: int| 0 <= at < s.len() && #[trigger] slash_at(s, stem, at)
}

/// Whether the stem stands somewhere in the text as a slash command, the two
/// compared as they are.
pub fn find_slash(s: &str, stem: &str) -> (r: bool)
    ensures
        r == has_slash(s@, stem@),
{
    let cs = text::chars_of(s);
    let needle_text = text::join2("/", stem);
    let needle = text::chars_of(needle_text.as_str());
    let n: usize = cs.len();
    let len: usize = needle.len();
    proof {
        reveal_strlit("/");
    }
    let mut i: usize = 0;
    while i < n
        invariant
            n == cs@.len(),
            cs@ == s@,
            needle@ == "/"@ + stem@,
            len == needle@.len(),
            len == stem@.len() + 1,
            i <= n,
            forall|at: int| 0 <= at < i ==> !#[trigger] slash_at(s@, stem@, at),
        decreases n - i,
    {
        if text::matches_at(&cs, &needle, i) {
            let left = i == 0 || !is_word_char(cs[i - 1]);
            let end: usize = i + len;
            let right = end == n || !(is_word_char(cs[end]) || cs[end] == '-');
            if left && right {
                assert(slash_at(s@, stem@, i as int));
                return true;
            }
        }
        i = i + 1;
    }
    false
}

/// Whether the text, in lower case, holds the stem as a slash command.
pub open spec fn text_calls(t: Seq<char>, stem: Seq<char>) -> bool {
    t.len() > 0 && has_slash(outside::lowercase(t), stem)
}

/// Whether one of the texts, in lower case, holds the stem as a slash command.
pub open spec fn called_in(texts: Seq<BySession<String>>, stem: Seq<char>) -> bool {
    exists|i: int, j: int|
        0 <= i < texts.len() && 0 <= j < texts[i].records@.len() && text_calls(
            (#[trigger] texts[i].records@[j])@,
            stem,
        )
}

fn is_called(texts: &Vec<BySession<String>>, stem: &str) -> (r: bool)
    ensures
        r == called_in(texts@, stem@),
{
    let mut i: usize = 0;
    while i < texts.len()
        invariant
            i <= texts@.len(),
            forall|a: int, b: int|
                0 <= a < i && 0 <= b < texts@[a].records@.len() ==> !text_calls(
                    (#[trigger] texts@[a].records@[b])@,
                    stem@,
                ),
        decreases texts@.len() - i,
    {
        let records = &texts[i].records;
        let mut j: usize = 0;
        while j < records.len()
            invariant
                i < texts@.len(),
                j <= records@.len(),
                records@ == texts@[i as int].records@,
                forall|b: int| 0 <= b < j ==> !text_calls((#[trigger] records@[b])@, stem@),
            decreases records@.len() - j,
        {
            let t = &records[j];
            if !text::is_empty(t.as_str()) {
                let lower = outside::to_lowercase(t.as_str());
                if find_slash(lower.as_str(), stem) {
                    assert(text_calls(texts@[i as int].records@[j as int]@, stem@));
                    return true;
                }
            }
            j = j + 1;
        }
        i = i + 1;
    }
    false
}

/// The stem of a candidate in lower case.
pub open spec fn lower_stem(c: CandidateView) -> Seq<char> {
    outside::lowercase(ghost_files::stem_of(c.basename))
}

/// Whether candidate `i` has a stem and no later candidate has the same stem in
/// lower case.
pub open spec fn speaks_for(candidates: Seq<CandidateView>, i: int) -> bool {
    &&& 0 <= i < candidates.len()
    &&& ghost_files::stem_of(candidates[i].basename).len() > 0
    &&& forall|k: int|
        i < k < candidates.len() && ghost_files::stem_of(
            (#[trigger] candidates[k]).basename,
        ).len() > 0 ==> lower_stem(candidates[k]) != lower_stem(candidates[i])
}

/// Whether `name` is the stem of a candidate that one of the texts calls. Of
/// candidates that differ in case alone the last gives its name.
pub open spec fn slash_named(
    texts: Seq<BySession<String>>,
    candidates: Seq<CandidateView>,
    name: Seq<char>,
) -> bool {
    exists|i: int| #[trigger]
        speaks_for(candidates, i) && called_in(texts, lower_stem(candidates[i]))
            && ghost_files::stem_of(candidates[i].basename) == name
}

fn check_speaks(candidates: &Vec<GhostCandidate>, at: usize, lower: &str) -> (r: bool)
    requires
        at < candidates@.len(),
        ghost_files::stem_of(candidates@[at as int].basename@).len() > 0,
        lower@ == lower_stem(candidates@[at as int]@),
    ensures
        r == speaks_for(ghost_files::candidate_views(candidates@), at as int),
{
    let ghost all = ghost_files::candidate_views(candidates@);
    let n: usize = candidates.len();
    let mut k: usize = at + 1;
    while k < n
        invariant
            n == candidates@.len(),
            at < k <= n,
            all == ghost_files::candidate_views(candidates@),
            lower@ == lower_stem(all[at as int]),
            forall|m: int|
                at < m < k && ghost_files::stem_of((#[trigger] all[m]).basename).len() > 0
                    ==> lower_stem(all[m]) != lower_stem(all[at as int]),
        decreases n - k,
    {
        let stem = strip_extension(candidates[k].basename.as_str());
        assert(all[k as int] == candidates@[k as int]@);
        if !text::is_empty(stem.as_str()) {
            let other = outside::to_lowercase(stem.as_str());
            if text::same(other.as_str(), lower) {
                assert(!speaks_for(all, at as int));
                return false;
            }
        }
        k = k + 1;
    }
    true
}

/// The stems of the candidates that the texts call by a slash.
pub fn mine_codex_slash_invocations(
    texts: Option<&Vec<BySession<String>>>,
    candidates: &Vec<GhostCandidate>,
) -> (r: NameSet)
    ensures
        forall|n: Seq<char>| #[trigger]
            r@.contains(n) == (texts is Some && slash_named(
                texts->Some_0@,
                ghost_files::candidate_views(candidates@),
                n,
            )),
{
    let mut out = NameSet::new();
    let ghost all = ghost_files::candidate_views(candidates@);
    match texts {
        Some(list) => {
            let mut i: usize = 0;
            while i < candidates.len()
                invariant
                    i <= candidates@.len(),
                    all == ghost_files::candidate_views(candidates@),
                    forall|n: Seq<char>| #[trigger]
                        out@.contains(n) == (exists|k: int|
                            k < i && #[trigger] speaks_for(all, k) && called_in(
                                list@,
                                lower_stem(all[k]),
                            ) && ghost_files::stem_of(all[k].basename) == n),
                decreases candidates@.len() - i,
            {
                let ghost before = out@;
                let stem = strip_extension(candidates[i].basename.as_str());
                assert(all[i as int] == candidates@[i as int]@);
                let ghost mut hit = false;
                if !text::is_empty(stem.as_str()) {
                    let lower = outside::to_lowercase(stem.as_str());
                    if check_speaks(candidates, i, lower.as_str()) && is_called(
                        list,
                        lower.as_str(),
                    ) {
                        out.insert(stem.as_str());
                        proof {
                            hit = true;
                        }
                    }
                }
                assert forall|n: Seq<char>| #[trigger]
                    out@.contains(n) == (exists|k: int|
                        k < i + 1 && #[trigger] speaks_for(all, k) && called_in(
                            list@,
                            lower_stem(all[k]),
                        ) && ghost_files::stem_of(all[k].basename) == n) by {
                    assert(hit == (speaks_for(all, i as int) && called_in(
                        list@,
                        lower_stem(all[i as int]),
                    )));
                    if before.contains(n) {
                        let k = choose|k: int|
                            k < i && #[trigger] speaks_for(all, k) && called_in(
                                list@,
                                lower_stem(all[k]),
                            ) && ghost_files::stem_of(all[k].basename) == n;
                        assert(speaks_for(all, k));
                    }
                    if hit && n == stem@ {
                        assert(speaks_for(all, i as int));
                    }
                }
                i = i + 1;
            }
            assert forall|n: Seq<char>| #[trigger]
                out@.contains(n) == slash_named(list@, all, n) by {
                if slash_named(list@, all, n) {
                    let k = choose|k: int| #[trigger]
                        speaks_for(all, k) && called_in(list@, lower_stem(all[k]))
                            && ghost_files::stem_of(all[k].basename) == n;
                    assert(k < i && speaks_for(all, k));
                }
            }
        },
        None => {},
    }
    out
}

/// The harness with agents, skills and commands: they are markdown files; a slash command
/// leaves a mark in what the user wrote.
#[derive(Debug, Default)]
pub struct ClaudeGhostAdapter;

impl GhostSurfaceAdapter for ClaudeGhostAdapter {
    open spec fn harness(&self) -> SourceKind {
        SourceKind::ClaudeCode
    }

    open spec fn offers(&self, inputs: GhostSurfaceInputs) -> Seq<CandidateView> {
        let s = SourceKind::ClaudeCode;
        let rule = FileRule::Markdown;
        ghost_files::dir_candidates(
            s,
            GhostFindingKind::GhostAgent,
            ghost_files::entry_views(inputs.claude.agents@),
            rule,
        ) + ghost_files::dir_candidates(
            s,
            GhostFindingKind::GhostSkill,
            ghost_files::entry_views(inputs.claude.skills@),
            rule,
        ) + ghost_files::dir_candidates(
            s,
            GhostFindingKind::GhostCommand,
            ghost_files::entry_views(inputs.claude.commands@),
            rule,
        )
    }

    open spec fn typed(
        &self,
        inputs: GhostSurfaceInputs,
        candidates: Seq<CandidateView>,
        name: Seq<char>,
    ) -> bool {
        marked_in(texts_in(inputs, SourceKind::ClaudeCode), name)
    }

    fn source(&self) -> (r: SourceKind) {
        SourceKind::ClaudeCode
    }

    fn enumerate(&self, inputs: &GhostSurfaceInputs) -> (r: Vec<GhostCandidate>) {
        let s = SourceKind::ClaudeCode;
        let rule = FileRule::Markdown;
        let mut out: Vec<GhostCandidate> = Vec::new();
        push_dir(&mut out, s, GhostFindingKind::GhostAgent, &inputs.claude.agents, rule);
        push_dir(&mut out, s, GhostFindingKind::GhostSkill, &inputs.claude.skills, rule);
        push_dir(&mut out, s, GhostFindingKind::GhostCommand, &inputs.claude.commands, rule);
        assert(ghost_files::candidate_views(out@) =~= self.offers(*inputs));
        out
    }

    fn observed_names(
        &self,
        inputs: &GhostSurfaceInputs,
        candidates: &Vec<GhostCandidate>,
    ) -> (r: NameSet) {
        mine_claude_command_names(source_texts(inputs, SourceKind::ClaudeCode))
    }
}

/// Codex: prompts, skills, rules and memories are text files; a slash command is
/// typed as it is.
#[derive(Debug, Default)]
pub struct CodexGhostAdapter;

impl GhostSurfaceAdapter for CodexGhostAdapter {
    open spec fn harness(&self) -> SourceKind {
        SourceKind::Codex
    }

    open spec fn offers(&self, inputs: GhostSurfaceInputs) -> Seq<CandidateView> {
        let s = SourceKind::Codex;
        let rule = FileRule::PlainText;
        ghost_files::dir_candidates(
            s,
            GhostFindingKind::GhostPrompt,
            ghost_files::entry_views(inputs.codex.prompts@),
            rule,
        ) + ghost_files::dir_candidates(
            s,
            GhostFindingKind::GhostSkill,
            ghost_files::entry_views(inputs.codex.skills@),
            rule,
        ) + ghost_files::dir_candidates(
            s,
            GhostFindingKind::GhostRule,
            ghost_files::entry_views(inputs.codex.rules@),
            rule,
        ) + ghost_files::dir_candidates(
            s,
            GhostFindingKind::GhostMemory,
            ghost_files::entry_views(inputs.codex.memories@),
            rule,
        )
    }

    open spec fn typed(
        &self,
        inputs: GhostSurfaceInputs,
        candidates: Seq<CandidateView>,
        name: Seq<char>,
    ) -> bool {
        slash_named(texts_in(inputs, SourceKind::Codex), candidates, name)
    }

    fn source(&self) -> (r: SourceKind) {
        SourceKind::Codex
    }

    fn enumerate(&self, inputs: &GhostSurfaceInputs) -> (r: Vec<GhostCandidate>) {
        let s = SourceKind::Codex;
        let rule = FileRule::PlainText;
        let mut out: Vec<GhostCandidate> = Vec::new();
        push_dir(&mut out, s, GhostFindingKind::GhostPrompt, &inputs.codex.prompts, rule);
        push_dir(&mut out, s, GhostFindingKind::GhostSkill, &inputs.codex.skills, rule);
        push_dir(&mut out, s, GhostFindingKind::GhostRule, &inputs.codex.rules, rule);
        push_dir(&mut out, s, GhostFindingKind::GhostMemory, &inputs.codex.memories, rule);
        assert(ghost_files::candidate_views(out@) =~= self.offers(*inputs));
        out
    }

    fn observed_names(
        &self,
        inputs: &GhostSurfaceInputs,
        candidates: &Vec<GhostCandidate>,
    ) -> (r: NameSet) {
        let r = mine_codex_slash_invocations(source_texts(inputs, SourceKind::Codex), candidates);
        proof {
            if source_texts_of(*inputs, SourceKind::Codex) is None {
                lemma_nothing_called(ghost_files::candidate_views(candidates@));
            }
        }
        r
    }
}

/// What the user wrote in the sessions of a source, where it is known.
pub open spec fn source_texts_of(inputs: GhostSurfaceInputs, source: SourceKind) -> Option<
    Vec<BySession<String>>,
> {
    match inputs.user_turn_text_by_session {
        Some(m) => m.at(source),
        None => None,
    }
}

fn source_texts(inputs: &GhostSurfaceInputs, source: SourceKind) -> (r: Option<
    &Vec<BySession<String>>,
>)
    ensures
        match r {
            Some(t) => source_texts_of(*inputs, source) == Some(*t),
            None => source_texts_of(*inputs, source) is None,
        },
{
    match &inputs.user_turn_text_by_session {
        Some(m) => m.get(&source),
        None => None,
    }
}

proof fn lemma_nothing_called(candidates: Seq<CandidateView>)
    ensures
        forall|n: Seq<char>| !#[trigger]
            slash_named(Seq::<BySession<String>>::empty(), candidates, n),
{
}

/// The names that a member declares as skills: the keys of an object, or the
/// strings of an array.
pub open spec fn declared_names(m: Option<MemberView>) -> Seq<Seq<char>> {
    match m {
        Some(MemberView::Object(o)) => o.map_values(|e: (Seq<char>, Seq<char>)| e.0),
        Some(MemberView::Array(a)) => strings_of(a),
        _ => Seq::empty(),
    }
}

/// The strings among the elements, in their order.
pub open spec fn strings_of(a: Seq<Option<Seq<char>>>) -> Seq<Seq<char>>
    decreases a.len(),
{
    if a.len() == 0 {
        Seq::empty()
    } else {
        match a.last() {
            Some(s) => strings_of(a.drop_last()).push(s),
            None => strings_of(a.drop_last()),
        }
    }
}

/// The skills that a member declares, each once, in the order of their names.
pub open spec fn declared_skills(m: Option<MemberView>) -> Seq<Seq<char>> {
    order::stable_sort(groups::first_seen(declared_names(m)), order::text_order())
}

fn collect_names(m: &Option<JsonMember>) -> (r: Vec<String>)
    ensures
        text::views(r@) == declared_names(member_view(*m)),
{
    let mut out: Vec<String> = Vec::new();
    assert(text::views(out@) =~= Seq::<Seq<char>>::empty());
    match m {
        Some(JsonMember::Object(o)) => {
            let ghost all = declared_names(member_view(*m));
            let mut i: usize = 0;
            while i < o.len()
                invariant
                    i <= o@.len(),
                    out@.len() == i,
                    forall|k: int| 0 <= k < i ==> (#[trigger] out@[k])@ == o@[k].0@,
                decreases o@.len() - i,
            {
                out.push(o[i].0.clone());
                i = i + 1;
            }
            assert(text::views(out@) =~= all);
        },
        Some(JsonMember::Array(a)) => {
            let ghost all = outside::group_views(a@);
            let mut i: usize = 0;
            assert(all.take(0) =~= Seq::<Option<Seq<char>>>::empty());
            while i < a.len()
                invariant
                    i <= a@.len(),
                    all == outside::group_views(a@),
                    text::views(out@) == strings_of(all.take(i as int)),
                decreases a@.len() - i,
            {
                assert(all.take(i + 1).drop_last() =~= all.take(i as int));
                let ghost before = text::views(out@);
                match &a[i] {
                    Some(s) => {
                        out.push(s.clone());
                        assert(text::views(out@) =~= before.push(s@));
                    },
                    None => {},
                }
                i = i + 1;
            }
            assert(all.take(i as int) =~= all);
        },
        _ => {},
    }
    out
}

/// What an optional member says.
pub open spec fn member_view(m: Option<JsonMember>) -> Option<MemberView> {
    match m {
        Some(x) => Some(x@),
        None => None,
    }
}

/// A skill that the settings declare.
pub open spec fn declared_skill(config_path: Seq<char>, name: Seq<char>) -> CandidateView {
    CandidateView {
        source: SourceKind::Opencode,
        kind: GhostFindingKind::GhostSkill,
        path: config_path + "#/skills/"@ + name,
        basename: name,
        size_tokens: 0,
        counted: Some(true),
    }
}

/// The JSON that stands for a command: `{}` where it is null.
pub open spec fn command_json(value: Seq<char>) -> Seq<char> {
    if value == "null"@ {
        "{}"@
    } else {
        value
    }
}

/// A command that the settings declare.
pub open spec fn declared_command(
    config_path: Seq<char>,
    e: (Seq<char>, Seq<char>),
) -> CandidateView {
    CandidateView {
        source: SourceKind::Opencode,
        kind: GhostFindingKind::GhostCommand,
        path: config_path + "#/commands/"@ + e.0,
        basename: e.0,
        size_tokens: tokens::tokens_of(text::blen(command_json(e.1)) as int),
        counted: None,
    }
}

/// The commands that a member declares: what it holds where it is an object.
pub open spec fn declared_commands(m: Option<MemberView>) -> Seq<(Seq<char>, Seq<char>)> {
    match m {
        Some(MemberView::Object(o)) => o,
        _ => Seq::empty(),
    }
}

/// What a project offers: the skills and the commands that its settings
/// declare, then the files of its two directories of skills.
pub open spec fn project_candidates(
    config_path: Seq<char>,
    skills: Option<MemberView>,
    commands: Option<MemberView>,
    own_files: Seq<EntryView>,
    files: Seq<EntryView>,
) -> Seq<CandidateView> {
    declared_skills(skills).map_values(|n: Seq<char>| declared_skill(config_path, n))
        + declared_commands(commands).map_values(
        |e: (Seq<char>, Seq<char>)| declared_command(config_path, e),
    ) + ghost_files::dir_candidates(
        SourceKind::Opencode,
        GhostFindingKind::GhostSkill,
        own_files,
        FileRule::Markdown,
    ) + ghost_files::dir_candidates(
        SourceKind::Opencode,
        GhostFindingKind::GhostSkill,
        files,
        FileRule::Markdown,
    )
}

fn push_declared_skills(
    out: &mut Vec<GhostCandidate>,
    config_path: &str,
    skills: &Option<JsonMember>,
)
    ensures
        ghost_files::candidate_views(final(out)@) == ghost_files::candidate_views(old(out)@)
            + declared_skills(member_view(*skills)).map_values(
            |n: Seq<char>| declared_skill(config_path@, n),
        ),
{
    let ghost start = ghost_files::candidate_views(out@);
    let listed = collect_names(skills);
    let ghost given = text::views(listed@);
    let found = groups::group_by_key(&listed);
    let mut once: Vec<String> = Vec::new();
    let mut i: usize = 0;
    let ghost gs = groups::group_views(found@);
    while i < found.len()
        invariant
            i <= found@.len(),
            gs == groups::group_views(found@),
            once@.len() == i,
            forall|k: int| 0 <= k < i ==> (#[trigger] once@[k])@ == gs[k].0,
        decreases found@.len() - i,
    {
        assert(gs[i as int].0 == found@[i as int].key@);
        once.push(found[i].key.clone());
        i = i + 1;
    }
    assert(gs.len() == found@.len());
    assert(text::views(once@) =~= groups::first_seen(given));
    let sorted = order::sort_texts(once);
    let ghost all = declared_skills(member_view(*skills)).map_values(
        |n: Seq<char>| declared_skill(config_path@, n),
    );
    assert(text::views(sorted@).len() == sorted@.len());
    let mut j: usize = 0;
    assert(start + all.take(0) =~= start);
    while j < sorted.len()
        invariant
            j <= sorted@.len(),
            text::views(sorted@) == declared_skills(member_view(*skills)),
            all == declared_skills(member_view(*skills)).map_values(
                |n: Seq<char>| declared_skill(config_path@, n),
            ),
            ghost_files::candidate_views(out@) == start + all.take(j as int),
        decreases sorted@.len() - j,
    {
        let ghost before = ghost_files::candidate_views(out@);
        let c = GhostCandidate {
            source: SourceKind::Opencode,
            kind: GhostFindingKind::GhostSkill,
            path: text::join3(config_path, "#/skills/", sorted[j].as_str()),
            basename: sorted[j].clone(),
            size_tokens: 0,
            counted_by_catalog_bloat: Some(true),
        };
        assert(text::views(sorted@)[j as int] == sorted@[j as int]@);
        assert(c@ == all[j as int]);
        out.push(c);
        assert(ghost_files::candidate_views(out@) =~= before.push(all[j as int]));
        assert(start + all.take(j + 1) =~= (start + all.take(j as int)).push(all[j as int]));
        j = j + 1;
    }
    assert(all.take(j as int) =~= all);
}

fn push_declared_commands(
    out: &mut Vec<GhostCandidate>,
    config_path: &str,
    commands: &Option<JsonMember>,
)
    ensures
        ghost_files::candidate_views(final(out)@) == ghost_files::candidate_views(old(out)@)
            + declared_commands(member_view(*commands)).map_values(
            |e: (Seq<char>, Seq<char>)| declared_command(config_path@, e),
        ),
{
    let ghost start = ghost_files::candidate_views(out@);
    let ghost all = declared_commands(member_view(*commands)).map_values(
        |e: (Seq<char>, Seq<char>)| declared_command(config_path@, e),
    );
    assert(start + all.take(0) =~= start);
    match commands {
        Some(JsonMember::Object(o)) => {
            let mut j: usize = 0;
            while j < o.len()
                invariant
                    j <= o@.len(),
                    all == o@.map_values(|e: (String, String)| (e.0@, e.1@)).map_values(
                        |e: (Seq<char>, Seq<char>)| declared_command(config_path@, e),
                    ),
                    ghost_files::candidate_views(out@) == start + all.take(j as int),
                decreases o@.len() - j,
            {
                let ghost before = ghost_files::candidate_views(out@);
                let size: usize = if text::same(o[j].1.as_str(), "null") {
                    text::byte_len("{}")
                } else {
                    text::byte_len(o[j].1.as_str())
                };
                let c = GhostCandidate {
                    source: SourceKind::Opencode,
                    kind: GhostFindingKind::GhostCommand,
                    path: text::join3(config_path, "#/commands/", o[j].0.as_str()),
                    basename: o[j].0.clone(),
                    size_tokens: tokens::tokens_from_bytes(size as u64),
                    counted_by_catalog_bloat: None,
                };
                assert(c@ == all[j as int]);
                out.push(c);
                assert(ghost_files::candidate_views(out@) =~= before.push(all[j as int]));
                assert(start + all.take(j + 1) =~= (start + all.take(j as int)).push(
                    all[j as int],
                ));
                j = j + 1;
            }
            assert(all.take(j as int) =~= all);
        },
        _ => {
            assert(start + all =~= start);
        },
    }
}

/// What a project offers, once its settings have been read.
pub fn opencode_candidates(
    config_path: &str,
    skills: &Option<JsonMember>,
    commands: &Option<JsonMember>,
    own_files: &Vec<DirEntry>,
    files: &Vec<DirEntry>,
) -> (r: Vec<GhostCandidate>)
    ensures
        ghost_files::candidate_views(r@) == project_candidates(
            config_path@,
            member_view(*skills),
            member_view(*commands),
            ghost_files::entry_views(own_files@),
            ghost_files::entry_views(files@),
        ),
{
    let mut out: Vec<GhostCandidate> = Vec::new();
    push_declared_skills(&mut out, config_path, skills);
    push_declared_commands(&mut out, config_path, commands);
    let s = SourceKind::Opencode;
    let k = GhostFindingKind::GhostSkill;
    push_dir(&mut out, s, k, own_files, FileRule::Markdown);
    push_dir(&mut out, s, k, files, FileRule::Markdown);
    assert(ghost_files::candidate_views(out@) =~= project_candidates(
        config_path@,
        member_view(*skills),
        member_view(*commands),
        ghost_files::entry_views(own_files@),
        ghost_files::entry_views(files@),
    ));
    out
}

/// What the settings hold under a key.
pub open spec fn setting(config: Option<String>, key: Seq<char>) -> Option<MemberView> {
    match config {
        Some(c) => outside::json_member_of(c@, key),
        None => None,
    }
}

/// What a project offers.
pub open spec fn offered_by(p: OpenCodeProject) -> Seq<CandidateView> {
    project_candidates(
        p.config_path@,
        setting(p.config, "skills"@),
        setting(p.config, "commands"@),
        ghost_files::entry_views(p.own_skills@),
        ghost_files::entry_views(p.skills@),
    )
}

/// What a project offers. Settings that are not JSON declare nothing.
pub fn enumerate_opencode_project(p: &OpenCodeProject) -> (r: Vec<GhostCandidate>)
    ensures
        ghost_files::candidate_views(r@) == offered_by(*p),
{
    let (skills, commands) = match &p.config {
        Some(c) => (
            outside::json_member(c.as_str(), "skills"),
            outside::json_member(c.as_str(), "commands"),
        ),
        None => (None, None),
    };
    opencode_candidates(p.config_path.as_str(), &skills, &commands, &p.own_skills, &p.skills)
}

/// What the projects offer, one after the other.
pub open spec fn offered_by_all(ps: Seq<OpenCodeProject>) -> Seq<CandidateView>
    decreases ps.len(),
{
    if ps.len() == 0 {
        Seq::empty()
    } else {
        offered_by_all(ps.drop_last()) + offered_by(ps.last())
    }
}

/// OpenCode: the settings of a project declare skills and commands, and its
/// directories hold skills. Its users type no names that are recorded.
#[derive(Debug, Default)]
pub struct OpenCodeGhostAdapter;

impl GhostSurfaceAdapter for OpenCodeGhostAdapter {
    open spec fn harness(&self) -> SourceKind {
        SourceKind::Opencode
    }

    open spec fn offers(&self, inputs: GhostSurfaceInputs) -> Seq<CandidateView> {
        offered_by_all(inputs.opencode@)
    }

    open spec fn typed(
        &self,
        inputs: GhostSurfaceInputs,
        candidates: Seq<CandidateView>,
        name: Seq<char>,
    ) -> bool {
        false
    }

    fn source(&self) -> (r: SourceKind) {
        SourceKind::Opencode
    }

    fn enumerate(&self, inputs: &GhostSurfaceInputs) -> (r: Vec<GhostCandidate>) {
        let ps = &inputs.opencode;
        let mut out: Vec<GhostCandidate> = Vec::new();
        let mut i: usize = 0;
        assert(ps@.take(0) =~= Seq::<OpenCodeProject>::empty());
        assert(ghost_files::candidate_views(out@) =~= Seq::<CandidateView>::empty());
        while i < ps.len()
            invariant
                i <= ps@.len(),
                ghost_files::candidate_views(out@) == offered_by_all(ps@.take(i as int)),
            decreases ps@.len() - i,
        {
            assert(ps@.take(i + 1).drop_last() =~= ps@.take(i as int));
            let ghost before = out@;
            let mut more = enumerate_opencode_project(&ps[i]);
            let ghost new = more@;
            out.append(&mut more);
            assert(ghost_files::candidate_views(out@) =~= ghost_files::candidate_views(before)
                + ghost_files::candidate_views(new));
            i = i + 1;
        }
        assert(ps@.take(i as int) =~= ps@);
        out
    }

    fn observed_names(
        &self,
        inputs: &GhostSurfaceInputs,
        candidates: &Vec<GhostCandidate>,
    ) -> (r: NameSet) {
        NameSet::new()
    }
}

/// Whether `known` holds the name in some case: a name of it and `name` have
/// the same lower case.
pub open spec fn known_as(known: Set<Seq<char>>, name: Seq<char>) -> bool {
    exists|m: Seq<char>| #[trigger]
        known.contains(m) && outside::lowercase(m) == outside::lowercase(name)
}

/// Whether one of the names that a file answers to was called.
pub open spec fn is_invoked(basename: Seq<char>, known: Set<Seq<char>>) -> bool {
    exists|i: int|
        0 <= i < ghost_files::lookups_of(basename).len() && known_as(
            known,
            #[trigger] ghost_files::lookups_of(basename)[i],
        )
}

fn lowered(names: &NameSet) -> (r: NameSet)
    ensures
        forall|x: Seq<char>| #[trigger]
            r@.contains(x) == (exists|m: Seq<char>| #[trigger]
                names@.contains(m) && outside::lowercase(m) == x),
{
    let list = names.list();
    let ghost all = text::views(list@);
    let mut out = NameSet::new();
    let mut i: usize = 0;
    while i < list.len()
        invariant
            i <= list@.len(),
            all == text::views(list@),
            forall|x: Seq<char>| #[trigger]
                out@.contains(x) == (exists|k: int|
                    0 <= k < i && outside::lowercase(#[trigger] all[k]) == x),
        decreases list@.len() - i,
    {
        let ghost before = out@;
        let l = outside::to_lowercase(list[i].as_str());
        out.insert(l.as_str());
        assert forall|x: Seq<char>| #[trigger]
            out@.contains(x) == (exists|k: int|
                0 <= k < i + 1 && outside::lowercase(#[trigger] all[k]) == x) by {
            assert(all[i as int] == list@[i as int]@);
            if before.contains(x) {
                let k = choose|k: int| 0 <= k < i && outside::lowercase(#[trigger] all[k]) == x;
                assert(outside::lowercase(all[k]) == x);
            }
        }
        i = i + 1;
    }
    assert forall|x: Seq<char>| #[trigger]
        out@.contains(x) == (exists|m: Seq<char>| #[trigger]
            names@.contains(m) && outside::lowercase(m) == x) by {
        if out@.contains(x) {
            let k = choose|k: int| 0 <= k < i && outside::lowercase(#[trigger] all[k]) == x;
            assert(all.contains(all[k]));
            assert(names@.contains(all[k]));
        }
        if exists|m: Seq<char>| #[trigger] names@.contains(m) && outside::lowercase(m) == x {
            let m = choose|m: Seq<char>| #[trigger]
                names@.contains(m) && outside::lowercase(m) == x;
            assert(all.to_set().contains(m));
            let k = choose|k: int| 0 <= k < all.len() && all[k] == m;
            assert(outside::lowercase(all[k]) == x);
        }
    }
    out
}

/// A candidate as a finding.
pub open spec fn ghost_of(c: CandidateView, session_count: u64) -> GhostView {
    GhostView {
        source: c.source,
        kind: c.kind,
        path: c.path,
        size_tokens: c.size_tokens,
        session_count,
        counted: c.counted,
    }
}

/// The candidates that were not called, as findings.
pub open spec fn ghosts_among(
    candidates: Seq<CandidateView>,
    known: Set<Seq<char>>,
    session_count: u64,
) -> Seq<GhostView>
    decreases candidates.len(),
{
    if candidates.len() == 0 {
        Seq::empty()
    } else {
        let rest = ghosts_among(candidates.drop_last(), known, session_count);
        if is_invoked(candidates.last().basename, known) {
            rest
        } else {
            rest.push(ghost_of(candidates.last(), session_count))
        }
    }
}

/// Whether `names` and `known` have a name in common.
pub open spec fn some_known(names: Seq<Seq<char>>, known: Set<Seq<char>>) -> bool {
    exists|i: int| 0 <= i < names.len() && known.contains(#[trigger] names[i])
}

/// The candidates none of whose names is known, as findings.
pub open spec fn unknown_among(
    candidates: Seq<CandidateView>,
    names: Seq<Seq<Seq<char>>>,
    known: Set<Seq<char>>,
    session_count: u64,
) -> Seq<GhostView>
    decreases candidates.len(),
{
    if candidates.len() == 0 {
        Seq::empty()
    } else {
        let rest = unknown_among(candidates.drop_last(), names, known, session_count);
        if some_known(names[candidates.len() - 1], known) {
            rest
        } else {
            rest.push(ghost_of(candidates.last(), session_count))
        }
    }
}

/// The lists of names as character sequences.
pub open spec fn name_views(v: Seq<Vec<String>>) -> Seq<Seq<Seq<char>>> {
    v.map_values(|n: Vec<String>| text::views(n@))
}

fn check_known(names: &Vec<String>, known: &NameSet) -> (r: bool)
    ensures
        r == some_known(text::views(names@), known@),
{
    let ghost all = text::views(names@);
    let mut i: usize = 0;
    while i < names.len()
        invariant
            i <= names@.len(),
            all == text::views(names@),
            forall|k: int| 0 <= k < i ==> !known@.contains(#[trigger] all[k]),
        decreases names@.len() - i,
    {
        assert(all[i as int] == names@[i as int]@);
        if known.contains(names[i].as_str()) {
            return true;
        }
        i = i + 1;
    }
    false
}

/// The candidates none of whose names is known, as findings. The names of a
/// candidate stand at its position, and all names are in lower case.
pub fn pick_unknown(
    candidates: &Vec<GhostCandidate>,
    names: &Vec<Vec<String>>,
    known: &NameSet,
    session_count: u64,
) -> (r: Vec<GhostSurfaceFinding>)
    requires
        names@.len() == candidates@.len(),
    ensures
        ghost_views(r@) == unknown_among(
            ghost_files::candidate_views(candidates@),
            name_views(names@),
            known@,
            session_count,
        ),
{
    let ghost all = ghost_files::candidate_views(candidates@);
    let ghost lists = name_views(names@);
    let mut out: Vec<GhostSurfaceFinding> = Vec::new();
    let mut i: usize = 0;
    assert(all.take(0) =~= Seq::<CandidateView>::empty());
    assert(ghost_views(out@) =~= Seq::<GhostView>::empty());
    while i < candidates.len()
        invariant
            i <= candidates@.len(),
            names@.len() == candidates@.len(),
            all == ghost_files::candidate_views(candidates@),
            lists == name_views(names@),
            ghost_views(out@) == unknown_among(all.take(i as int), lists, known@, session_count),
        decreases candidates@.len() - i,
    {
        assert(all.take(i + 1).drop_last() =~= all.take(i as int));
        let c = &candidates[i];
        assert(all[i as int] == c@);
        assert(lists[i as int] == text::views(names@[i as int]@));
        if !check_known(&names[i], known) {
            let ghost before = ghost_views(out@);
            out.push(
                GhostSurfaceFinding {
                    source: c.source,
                    kind: c.kind,
                    path: c.path.clone(),
                    size_tokens: c.size_tokens,
                    session_count,
                    counted_by_catalog_bloat: c.counted_by_catalog_bloat,
                },
            );
            assert(ghost_views(out@) =~= before.push(ghost_of(c@, session_count)));
        }
        i = i + 1;
    }
    assert(all.take(i as int) =~= all);
    out
}

/// The names in lower case.
pub open spec fn all_lower(names: Seq<Seq<char>>) -> Seq<Seq<char>> {
    names.map_values(|n: Seq<char>| outside::lowercase(n))
}

fn lower_lookups(basename: &str) -> (r: Vec<String>)
    ensures
        text::views(r@) == all_lower(ghost_files::lookups_of(basename@)),
{
    let names = names_for_lookup(basename);
    let ghost all = ghost_files::lookups_of(basename@);
    assert(text::views(names@).len() == names@.len());
    let mut out: Vec<String> = Vec::new();
    let mut i: usize = 0;
    while i < names.len()
        invariant
            i <= names@.len(),
            text::views(names@) == all,
            out@.len() == i,
            forall|k: int| 0 <= k < i ==> (#[trigger] out@[k])@ == outside::lowercase(all[k]),
        decreases names@.len() - i,
    {
        assert(all[i as int] == names@[i as int]@);
        out.push(outside::to_lowercase(names[i].as_str()));
        i = i + 1;
    }
    assert(text::views(out@) =~= all_lower(all));
    out
}

proof fn lemma_lower_known(
    candidates: Seq<CandidateView>,
    names: Seq<Seq<Seq<char>>>,
    known: Set<Seq<char>>,
    lower: Set<Seq<char>>,
    session_count: u64,
)
    requires
        candidates.len() <= names.len(),
        forall|i: int|
            0 <= i < candidates.len() ==> #[trigger] names[i] == all_lower(
                ghost_files::lookups_of(candidates[i].basename),
            ),
        forall|x: Seq<char>| #[trigger]
            lower.contains(x) == (exists|m: Seq<char>| #[trigger]
                known.contains(m) && outside::lowercase(m) == x),
    ensures
        unknown_among(candidates, names, lower, session_count) == ghosts_among(
            candidates,
            known,
            session_count,
        ),
    decreases candidates.len(),
{
    if candidates.len() > 0 {
        let d = candidates.drop_last();
        assert forall|i: int| 0 <= i < d.len() implies #[trigger] names[i] == all_lower(
            ghost_files::lookups_of(d[i].basename),
        ) by {
            assert(d[i] == candidates[i]);
        }
        lemma_lower_known(d, names, known, lower, session_count);
        let n = candidates.len() - 1;
        let base = candidates.last().basename;
        let look = ghost_files::lookups_of(base);
        assert(names[n] == all_lower(look));
        if some_known(names[n], lower) {
            let i = choose|i: int| 0 <= i < names[n].len() && lower.contains(#[trigger] names[n][i]);
            assert(known_as(known, look[i]));
        }
        if is_invoked(base, known) {
            let i = choose|i: int| 0 <= i < look.len() && known_as(known, #[trigger] look[i]);
            assert(names[n][i] == outside::lowercase(look[i]));
            assert(lower.contains(names[n][i]));
        }
    }
}

/// The names that count as called for a harness: those that its sessions
/// called, and those that its users typed.
pub open spec fn known_names<A: GhostSurfaceAdapter + ?Sized>(
    adapter: &A,
    inputs: GhostSurfaceInputs,
) -> Set<Seq<char>> {
    Set::new(
        |n: Seq<char>|
            observed_in(inputs, adapter.harness()).contains(n) || (texts_in(
                inputs,
                adapter.harness(),
            ).len() > 0 && adapter.typed(inputs, adapter.offers(inputs), n)),
    )
}

/// What a harness offers and nobody calls.
pub open spec fn ghosts_of<A: GhostSurfaceAdapter + ?Sized>(
    adapter: &A,
    inputs: GhostSurfaceInputs,
) -> Seq<GhostView> {
    ghosts_among(
        adapter.offers(inputs),
        known_names(adapter, inputs),
        sessions_in(inputs, adapter.harness()),
    )
}

/// What a harness offers and nobody calls.
pub fn detect_for<A: GhostSurfaceAdapter + ?Sized>(
    inputs: &GhostSurfaceInputs,
    adapter: &A,
) -> (r: Vec<GhostSurfaceFinding>)
    ensures
        ghost_views(r@) == ghosts_of(adapter, *inputs),
{
    let source = adapter.source();
    let candidates = adapter.enumerate(inputs);
    let ghost known = known_names(adapter, *inputs);
    let mut observed = NameSet::new();
    match inputs.observed_names_by_source.get(&source) {
        Some(s) => {
            observed.absorb(s);
        },
        None => {},
    }
    assert(observed@ =~= observed_in(*inputs, source));
    match source_texts(inputs, source) {
        Some(t) => {
            if t.len() > 0 {
                let extra = adapter.observed_names(inputs, &candidates);
                observed.absorb(&extra);
            }
        },
        None => {},
    }
    assert(observed@ =~= known);
    let lower = lowered(&observed);
    let session_count: u64 = match inputs.session_count_by_source.get(&source) {
        Some(n) => *n,
        None => 0,
    };
    let ghost all = ghost_files::candidate_views(candidates@);
    let mut names: Vec<Vec<String>> = Vec::new();
    let mut i: usize = 0;
    while i < candidates.len()
        invariant
            i <= candidates@.len(),
            all == ghost_files::candidate_views(candidates@),
            names@.len() == i,
            forall|k: int|
                0 <= k < i ==> text::views((#[trigger] names@[k])@) == all_lower(
                    ghost_files::lookups_of(all[k].basename),
                ),
        decreases candidates@.len() - i,
    {
        assert(all[i as int] == candidates@[i as int]@);
        names.push(lower_lookups(candidates[i].basename.as_str()));
        i = i + 1;
    }
    proof {
        assert forall|k: int| 0 <= k < all.len() implies #[trigger] name_views(names@)[k]
            == all_lower(ghost_files::lookups_of(all[k].basename)) by {
            assert(name_views(names@)[k] == text::views(names@[k]@));
        }
        lemma_lower_known(all, name_views(names@), known, lower@, session_count);
    }
    pick_unknown(&candidates, &names, &lower, session_count)
}

/// What the harnesses offer and nobody calls, one harness after the other.
pub open spec fn ghosts_of_all(
    inputs: GhostSurfaceInputs,
    adapters: Seq<&dyn GhostSurfaceAdapter>,
) -> Seq<GhostView>
    decreases adapters.len(),
{
    if adapters.len() == 0 {
        Seq::empty()
    } else {
        ghosts_of_all(inputs, adapters.drop_last()) + ghosts_of(adapters.last(), inputs)
    }
}

/// What the given harnesses offer and nobody calls.
pub fn detect_ghost_surface_with_adapters(
    inputs: &GhostSurfaceInputs,
    adapters: &[&dyn GhostSurfaceAdapter],
) -> (r: Vec<GhostSurfaceFinding>)
    ensures
        ghost_views(r@) == ghosts_of_all(*inputs, adapters@),
{
    let mut out: Vec<GhostSurfaceFinding> = Vec::new();
    let mut i: usize = 0;
    assert(adapters@.take(0) =~= Seq::<&dyn GhostSurfaceAdapter>::empty());
    assert(ghost_views(out@) =~= Seq::<GhostView>::empty());
    while i < adapters.len()
        invariant
            i <= adapters@.len(),
            ghost_views(out@) == ghosts_of_all(*inputs, adapters@.take(i as int)),
        decreases adapters@.len() - i,
    {
        assert(adapters@.take(i + 1).drop_last() =~= adapters@.take(i as int));
        let ghost before = out@;
        let mut more = detect_for(inputs, adapters[i]);
        let ghost new = more@;
        out.append(&mut more);
        assert(ghost_views(out@) =~= ghost_views(before) + ghost_views(new));
        i = i + 1;
    }
    assert(adapters@.take(i as int) =~= adapters@);
    out
}

/// What the three harnesses offer and nobody calls.
pub fn detect_ghost_surface(inputs: &GhostSurfaceInputs) -> (r: Vec<GhostSurfaceFinding>)
    ensures
        ghost_views(r@) == ghosts_of(&ClaudeGhostAdapter, *inputs) + ghosts_of(
            &CodexGhostAdapter,
            *inputs,
        ) + ghosts_of(&OpenCodeGhostAdapter, *inputs),
{
    let mut out = detect_for(inputs, &ClaudeGhostAdapter);
    let ghost a = out@;
    let mut codex = detect_for(inputs, &CodexGhostAdapter);
    let ghost b = codex@;
    let mut opencode = detect_for(inputs, &OpenCodeGhostAdapter);
    let ghost c = opencode@;
    out.append(&mut codex);
    out.append(&mut opencode);
    assert(ghost_views(out@) =~= ghost_views(a) + ghost_views(b) + ghost_views(c));
    out
}

/// What is reported is what is offered and was not called, and nothing else.
pub proof fn lemma_ghosts<A: GhostSurfaceAdapter + ?Sized>(
    adapter: &A,
    inputs: GhostSurfaceInputs,
    g: GhostView,
)
    ensures
        ghosts_of(adapter, inputs).contains(g) <==> exists|i: int|
            0 <= i < adapter.offers(inputs).len() && !is_invoked(
                (#[trigger] adapter.offers(inputs)[i]).basename,
                known_names(adapter, inputs),
            ) && g == ghost_of(
                adapter.offers(inputs)[i],
                sessions_in(inputs, adapter.harness()),
            ),
{
    lemma_ghosts_among(
        adapter.offers(inputs),
        known_names(adapter, inputs),
        sessions_in(inputs, adapter.harness()),
        g,
    );
}

proof fn lemma_ghosts_among(
    candidates: Seq<CandidateView>,
    known: Set<Seq<char>>,
    count: u64,
    g: GhostView,
)
    ensures
        ghosts_among(candidates, known, count).contains(g) <==> exists|i: int|
            0 <= i < candidates.len() && !is_invoked((#[trigger] candidates[i]).basename, known)
                && g == ghost_of(candidates[i], count),
    decreases candidates.len(),
{
    let r = ghosts_among(candidates, known, count);
    if candidates.len() > 0 {
        let d = candidates.drop_last();
        let rest = ghosts_among(d, known, count);
        lemma_ghosts_among(d, known, count, g);
        if r.contains(g) {
            let k = choose|k: int| 0 <= k < r.len() && r[k] == g;
            if k < rest.len() {
                assert(rest[k] == g);
                let i = choose|i: int|
                    0 <= i < d.len() && !is_invoked((#[trigger] d[i]).basename, known) && g
                        == ghost_of(d[i], count);
                assert(candidates[i] == d[i]);
            } else {
                assert(candidates[candidates.len() - 1] == candidates.last());
            }
        }
        if exists|i: int|
            0 <= i < candidates.len() && !is_invoked((#[trigger] candidates[i]).basename, known)
                && g == ghost_of(candidates[i], count) {
            let i = choose|i: int|
                0 <= i < candidates.len() && !is_invoked(
                    (#[trigger] candidates[i]).basename,
                    known,
                ) && g == ghost_of(candidates[i], count);
            if i < d.len() {
                assert(d[i] == candidates[i]);
                assert(rest.contains(g));
                let k = choose|k: int| 0 <= k < rest.len() && rest[k] == g;
                assert(r[k] == g);
            } else {
                assert(r[r.len() - 1] == g);
            }
        }
    }
}

/// A file whose stem was called, in whatever case, is not reported.
pub proof fn lemma_called_is_no_ghost(basename: Seq<char>, known: Set<Seq<char>>, name: Seq<char>)
    requires
        known.contains(name),
        outside::lowercase(name) == outside::lowercase(ghost_files::stem_of(basename)),
    ensures
        is_invoked(basename, known),
{
    assert(ghost_files::lookups_of(basename)[0] == ghost_files::stem_of(basename));
    assert(known_as(known, ghost_files::lookups_of(basename)[0]));
}

/// What the user wrote counts for a source only where it is known for that
/// source: without it the names that the sessions called decide alone.
pub proof fn lemma_without_text<A: GhostSurfaceAdapter + ?Sized>(
    adapter: &A,
    inputs: GhostSurfaceInputs,
)
    requires
        texts_in(inputs, adapter.harness()).len() == 0,
    ensures
        known_names(adapter, inputs) == observed_in(inputs, adapter.harness()),
{
    assert(known_names(adapter, inputs) =~= observed_in(inputs, adapter.harness()));
}

/// Whether two inputs say the same of a source.
pub open spec fn agree_on(
    a: GhostSurfaceInputs,
    b: GhostSurfaceInputs,
    source: SourceKind,
) -> bool {
    &&& observed_in(a, source) == observed_in(b, source)
    &&& texts_in(a, source) == texts_in(b, source)
    &&& sessions_in(a, source) == sessions_in(b, source)
}

/// Each harness goes by its own files and its own sessions: what the sessions
/// of another called or what was typed there makes no difference.
pub proof fn lemma_sources_are_apart(a: GhostSurfaceInputs, b: GhostSurfaceInputs)
    ensures
        a.claude == b.claude && agree_on(a, b, SourceKind::ClaudeCode) ==> ghosts_of(
            &ClaudeGhostAdapter,
            a,
        ) == ghosts_of(&ClaudeGhostAdapter, b),
        a.codex == b.codex && agree_on(a, b, SourceKind::Codex) ==> ghosts_of(
            &CodexGhostAdapter,
            a,
        ) == ghosts_of(&CodexGhostAdapter, b),
        a.opencode == b.opencode && agree_on(a, b, SourceKind::Opencode) ==> ghosts_of(
            &OpenCodeGhostAdapter,
            a,
        ) == ghosts_of(&OpenCodeGhostAdapter, b),
{
    if a.claude == b.claude && agree_on(a, b, SourceKind::ClaudeCode) {
        assert(known_names(&ClaudeGhostAdapter, a) =~= known_names(&ClaudeGhostAdapter, b));
    }
    if a.codex == b.codex && agree_on(a, b, SourceKind::Codex) {
        assert(known_names(&CodexGhostAdapter, a) =~= known_names(&CodexGhostAdapter, b));
    }
    if a.opencode == b.opencode && agree_on(a, b, SourceKind::Opencode) {
        assert(known_names(&OpenCodeGhostAdapter, a) =~= known_names(&OpenCodeGhostAdapter, b));
    }
}

/// A skill that the settings declare is reported where nobody calls it, and
/// charged nothing: the catalog is charged for it already.
pub proof fn lemma_declared_skills_are_free(p: OpenCodeProject, known: Set<Seq<char>>, count: u64, i: int)
    requires
        0 <= i < declared_skills(setting(p.config, "skills"@)).len(),
        !is_invoked(declared_skills(setting(p.config, "skills"@))[i], known),
    ensures
        ({
            let name = declared_skills(setting(p.config, "skills"@))[i];
            let g = ghost_of(declared_skill(p.config_path@, name), count);
            ghosts_among(offered_by(p), known, count).contains(g) && g.billed() == 0
        }),
{
    let name = declared_skills(setting(p.config, "skills"@))[i];
    let g = ghost_of(declared_skill(p.config_path@, name), count);
    assert(offered_by(p)[i] == declared_skill(p.config_path@, name));
    lemma_ghosts_among(offered_by(p), known, count, g);
}

} // verus!
