//! Files that are never called, in the order of what they cost and in words.

use crate::ghost_surface::{GhostSurfaceFinding, GhostView};
use crate::order;
use crate::order::Ordered;
use crate::records::SourceNames;
use crate::text;
use crate::waste;
use crate::waste::{ActionView, Amount, AmountView, FindingView, WasteAction, WasteFinding};
use vstd::prelude::*;

verus! {

/// A finding with the rank of what it costs in all.
#[derive(Debug, Clone, PartialEq)]
pub struct PricedGhost {
    pub found: GhostSurfaceFinding,
    /// A number that ranks the cost among others.
    pub cost_key: i64,
}

impl View for PricedGhost {
    type V = (GhostView, i64);

    open spec fn view(&self) -> (GhostView, i64) {
        (self.found@, self.cost_key)
    }
}

/// What the findings say.
pub open spec fn priced_views(v: Seq<PricedGhost>) -> Seq<(GhostView, i64)> {
    v.map_values(|g: PricedGhost| g@)
}

/// The dearest first, then the largest, then by path.
pub open spec fn ghost_order() -> spec_fn((GhostView, i64), (GhostView, i64)) -> bool {
    |a: (GhostView, i64), b: (GhostView, i64)|
        a.1 > b.1 || (a.1 == b.1 && (a.0.size_tokens > b.0.size_tokens || (a.0.size_tokens
            == b.0.size_tokens && text::str_lt(a.0.path, b.0.path))))
}

impl Ordered for PricedGhost {
    open spec fn before(self, other: Self) -> bool {
        ghost_order()(self@, other@)
    }

    fn is_before(&self, other: &Self) -> (r: bool) {
        self.cost_key > other.cost_key || (self.cost_key == other.cost_key && (
        self.found.size_tokens > other.found.size_tokens || (self.found.size_tokens
            == other.found.size_tokens && text::less(
            self.found.path.as_str(),
            other.found.path.as_str(),
        ))))
    }
}

/// The findings, the dearest first, then the largest, then by path.
pub fn sort_ghosts(v: Vec<PricedGhost>) -> (r: Vec<PricedGhost>)
    ensures
        priced_views(r@) == order::stable_sort(priced_views(v@), ghost_order()),
{
    let ghost given = v@;
    let out = order::sort(v);
    proof {
        let f = |g: PricedGhost| g@;
        assert(priced_views(given) =~= given.map_values(f));
        order::lemma_sort_map(given, f, order::order_of::<PricedGhost>(), ghost_order());
        assert(priced_views(out@) =~= out@.map_values(f));
    }
    out
}

/// The findings come out in order and none is lost. Two that the order leaves
/// open cost the same, are of one size and have one path.
pub proof fn lemma_sorted_ghosts(v: Seq<(GhostView, i64)>)
    ensures
        order::in_order(order::stable_sort(v, ghost_order()), ghost_order()),
        order::stable_sort(v, ghost_order()).to_multiset() == v.to_multiset(),
        forall|a: (GhostView, i64), b: (GhostView, i64)|
            !#[trigger] ghost_order()(a, b) && !#[trigger] ghost_order()(b, a) ==> a.1 == b.1
                && a.0.size_tokens == b.0.size_tokens && a.0.path == b.0.path,
{
    let lt = ghost_order();
    assert forall|a: (GhostView, i64)| !#[trigger] lt(a, a) by {
        text::lemma_str_lt(a.0.path, a.0.path, a.0.path);
    }
    assert forall|a: (GhostView, i64), b: (GhostView, i64), c: (GhostView, i64)| #[trigger]
        lt(a, b) && #[trigger] lt(b, c) implies lt(a, c) by {
        text::lemma_str_lt(a.0.path, b.0.path, c.0.path);
    }
    assert forall|a: (GhostView, i64), b: (GhostView, i64), c: (GhostView, i64)| #[trigger]
        lt(a, c) implies lt(a, b) || #[trigger] lt(b, c) by {
        text::lemma_str_lt(a.0.path, b.0.path, c.0.path);
        text::lemma_str_lt(b.0.path, a.0.path, c.0.path);
    }
    order::lemma_sort_in_order(v, lt);
    order::lemma_sort_multiset(v, lt);
    assert forall|a: (GhostView, i64), b: (GhostView, i64)| !#[trigger] lt(a, b) && !#[trigger] lt(
        b,
        a,
    ) implies a.1 == b.1 && a.0.size_tokens == b.0.size_tokens && a.0.path == b.0.path by {
        text::lemma_str_lt(a.0.path, b.0.path, a.0.path);
    }
}

/// What a finding is put into words with.
#[derive(Debug, Clone)]
pub struct GhostSurfaceFindingOptions {
    /// The directory to archive files in; the usual one where there is none.
    pub archive_dir: Option<String>,
}

impl Default for GhostSurfaceFindingOptions {
    fn default() -> (r: GhostSurfaceFindingOptions)
        ensures
            r.archive_dir is None,
    {
        GhostSurfaceFindingOptions { archive_dir: None }
    }
}

/// `s` with every single quote written as `'\''`.
pub open spec fn escaped(s: Seq<char>) -> Seq<char>
    decreases s.len(),
{
    if s.len() == 0 {
        Seq::empty()
    } else if s.last() == '\'' {
        escaped(s.drop_last()) + seq!['\'', '\\', '\'', '\'']
    } else {
        escaped(s.drop_last()).push(s.last())
    }
}

/// `s` as one word for a POSIX shell.
pub open spec fn quoted(s: Seq<char>) -> Seq<char> {
    seq!['\''] + escaped(s) + seq!['\'']
}

/// The string as one word for a POSIX shell: between single quotes, each single
/// quote of its own written as `'\''`.
pub fn shell_quote(s: &str) -> (r: String)
    ensures
        r@ == quoted(s@),
{
    let cs = text::chars_of(s);
    let mut out = String::new();
    out.push('\'');
    let mut i: usize = 0;
    assert(cs@.take(0) =~= Seq::<char>::empty());
    assert(out@ =~= seq!['\''] + escaped(cs@.take(0)));
    while i < cs.len()
        invariant
            i <= cs@.len(),
            out@ == seq!['\''] + escaped(cs@.take(i as int)),
        decreases cs@.len() - i,
    {
        assert(cs@.take(i + 1).drop_last() =~= cs@.take(i as int));
        if cs[i] == '\'' {
            out.push('\'');
            out.push('\\');
            out.push('\'');
            out.push('\'');
        } else {
            out.push(cs[i]);
        }
        assert(out@ =~= seq!['\''] + escaped(cs@.take(i + 1)));
        i = i + 1;
    }
    assert(cs@.take(i as int) =~= cs@);
    out.push('\'');
    assert(out@ =~= quoted(s@));
    out
}

/// Where a shell stands in a word.
#[verifier::ext_equal]
pub struct WordState {
    /// Between single quotes.
    pub inside: bool,
    /// Behind a backslash.
    pub escape: bool,
    /// What the word is so far.
    pub word: Seq<char>,
}

/// How a POSIX shell reads the single quotes and backslashes of a word: between
/// single quotes every character stands for itself, and outside them a
/// backslash makes the next character stand for itself.
pub open spec fn read_word(s: Seq<char>) -> WordState
    decreases s.len(),
{
    if s.len() == 0 {
        WordState { inside: false, escape: false, word: Seq::empty() }
    } else {
        let st = read_word(s.drop_last());
        let c = s.last();
        if st.inside {
            if c == '\'' {
                WordState { inside: false, ..st }
            } else {
                WordState { word: st.word.push(c), ..st }
            }
        } else if st.escape {
            WordState { escape: false, word: st.word.push(c), ..st }
        } else if c == '\'' {
            WordState { inside: true, ..st }
        } else if c == '\\' {
            WordState { escape: true, ..st }
        } else {
            WordState { word: st.word.push(c), ..st }
        }
    }
}

/// A shell reads a quoted string as the string itself.
pub proof fn lemma_quoted(s: Seq<char>)
    ensures
        read_word(quoted(s)) == (WordState { inside: false, escape: false, word: s }),
{
    lemma_escaped(s);
    let a = seq!['\''] + escaped(s);
    assert(quoted(s) =~= a.push('\''));
    assert(quoted(s).drop_last() =~= a);
    assert(read_word(quoted(s)) =~= WordState { inside: false, escape: false, word: s });
}

proof fn lemma_escaped(s: Seq<char>)
    ensures
        read_word(seq!['\''] + escaped(s)) == (WordState { inside: true, escape: false, word: s }),
    decreases s.len(),
{
    let a = seq!['\''] + escaped(s);
    if s.len() == 0 {
        assert(a =~= seq!['\'']);
        assert(a.drop_last() =~= Seq::<char>::empty());
        reveal_with_fuel(read_word, 2);
        assert(s =~= Seq::<char>::empty());
        assert(read_word(a) =~= WordState { inside: true, escape: false, word: s });
    } else {
        let d = s.drop_last();
        let b = seq!['\''] + escaped(d);
        lemma_escaped(d);
        assert(d.push(s.last()) =~= s);
        if s.last() == '\'' {
            let b1 = b.push('\'');
            let b2 = b1.push('\\');
            let b3 = b2.push('\'');
            assert(b1.drop_last() =~= b);
            assert(b2.drop_last() =~= b1);
            assert(b3.drop_last() =~= b2);
            assert(a =~= b3.push('\''));
            assert(a.drop_last() =~= b3);
            assert(read_word(b1) =~= WordState { inside: false, escape: false, word: d });
            assert(read_word(b2) =~= WordState { inside: false, escape: true, word: d });
            assert(read_word(b3) =~= WordState { inside: false, escape: false, word: s });
            assert(read_word(a) =~= WordState { inside: true, escape: false, word: s });
        } else {
            assert(a =~= b.push(s.last()));
            assert(a.drop_last() =~= b);
            assert(read_word(a) =~= WordState { inside: true, escape: false, word: s });
        }
    }
}

/// The place of the first `#`; the length where there is none.
pub open spec fn hash_at(s: Seq<char>) -> int
    decreases s.len(),
{
    if s.len() == 0 || s[0] == '#' {
        0
    } else {
        1 + hash_at(s.drop_first())
    }
}

fn find_hash(cs: &Vec<char>) -> (r: usize)
    ensures
        r == hash_at(cs@),
        r <= cs@.len(),
{
    let mut i: usize = 0;
    assert(cs@.skip(0) =~= cs@);
    while i < cs.len() && cs[i] != '#'
        invariant
            i <= cs@.len(),
            hash_at(cs@) == i + hash_at(cs@.skip(i as int)),
        ensures
            i <= cs@.len(),
            hash_at(cs@) == i,
        decreases cs@.len() - i,
    {
        assert(cs@.skip(i as int)[0] == cs@[i as int]);
        assert(cs@.skip(i as int).drop_first() =~= cs@.skip(i + 1));
        i = i + 1;
        assert(i < cs@.len() ==> cs@.skip(i as int)[0] == cs@[i as int]);
    }
    i
}

/// A path into a document: the file, and the place in it behind a `#`.
pub open spec fn synthetic_parts(path: Seq<char>) -> Option<(Seq<char>, Seq<char>)> {
    let at = hash_at(path);
    if at < path.len() {
        Some((path.take(at), path.skip(at + 1)))
    } else {
        None
    }
}

/// The file and the place in it, where the path has a `#`.
pub fn split_synthetic_path(path: &str) -> (r: Option<(String, String)>)
    ensures
        match r {
            Some(p) => synthetic_parts(path@) == Some((p.0@, p.1@)),
            None => synthetic_parts(path@) is None,
        },
{
    let cs = text::chars_of(path);
    let at = find_hash(&cs);
    let n: usize = cs.len();
    if at < n {
        assert(cs@.subrange(0, at as int) =~= path@.take(at as int));
        assert(cs@.subrange(at + 1, n as int) =~= path@.skip(at + 1));
        Some((text::string_of(&cs, 0, at), text::string_of(&cs, at + 1, n)))
    } else {
        None
    }
}

/// The last part of a path that says where to go: not empty and not `.`.
pub open spec fn last_part(parts: Seq<Seq<char>>) -> Option<Seq<char>>
    decreases parts.len(),
{
    if parts.len() == 0 {
        None
    } else if parts.last().len() == 0 || parts.last() == "."@ {
        last_part(parts.drop_last())
    } else {
        Some(parts.last())
    }
}

/// The name of the file that a path leads to; the path itself where it leads to
/// none, such as one that ends in `..`.
pub open spec fn base_of(path: Seq<char>) -> Seq<char> {
    match last_part(text::split_on(path, '/')) {
        Some(p) => if p == ".."@ {
            path
        } else {
            p
        },
        None => path,
    }
}

/// The name of the file that a path leads to.
pub fn basename_of(path: &str) -> (r: String)
    ensures
        r@ == base_of(path@),
{
    let cs = text::chars_of(path);
    let parts = text::split_chars(&cs, cs.len(), '/');
    assert(cs@.take(cs@.len() as int) =~= cs@);
    let ghost all = text::views(parts@);
    let mut i: usize = parts.len();
    assert(all.take(i as int) =~= all);
    while i > 0 && (text::is_empty(parts[i - 1].as_str()) || text::same(
        parts[i - 1].as_str(),
        ".",
    ))
        invariant
            i <= parts@.len(),
            all == text::views(parts@),
            last_part(all) == last_part(all.take(i as int)),
        ensures
            i <= parts@.len(),
            last_part(all) == (if i > 0 {
                Some(parts@[i - 1]@)
            } else {
                None
            }),
        decreases i,
    {
        proof {
            let p = parts@[i - 1]@;
            assert(all.take(i as int).last() == p);
            assert(all.take(i as int).drop_last() =~= all.take(i - 1));
        }
        i = i - 1;
        proof {
            if i > 0 {
                assert(all.take(i as int).last() == parts@[i - 1]@);
            }
        }
    }
    if i > 0 && !text::same(parts[i - 1].as_str(), "..") {
        parts[i - 1].clone()
    } else {
        path.to_owned()
    }
}

/// What to do about a finding: edit the document that declares it, or move the
/// file into the archive.
pub open spec fn ghost_action(g: GhostView, archive_dir: Seq<char>) -> ActionView {
    match synthetic_parts(g.path) {
        Some(p) => ActionView::Paste {
            label: "Remove ghost "@ + g.kind.kebab() + " from "@ + base_of(p.0),
            text: "Edit "@ + p.0 + " and remove the entry at "@ + p.1 + "."@,
        },
        None => ActionView::Command {
            label: "Archive ghost "@ + g.kind.kebab(),
            text: "mkdir -p "@ + quoted(archive_dir) + " && mv "@ + quoted(g.path) + " "@ + quoted(
                archive_dir + "/"@,
            ),
        },
    }
}

/// The sentence on the sessions, where there are any.
pub open spec fn sessions_part(g: GhostView, source: Seq<char>) -> Seq<char> {
    if g.session_count > 0 {
        " Observed across "@ + text::decimal(g.session_count as nat) + " "@ + source
            + " session(s) in the lookback window."@
    } else {
        Seq::empty()
    }
}

/// The sentence on what is counted already, where that holds.
pub open spec fn counted_part(g: GhostView) -> Seq<char> {
    if g.counted == Some(true) {
        " Cost is reported as $0 here because the OpenCode catalog-bloat detector already attributes this entry — see `burn hotspots --patterns opencode-system-prompt`."@
    } else {
        Seq::empty()
    }
}

/// The name of the file up to a `#`.
pub open spec fn title_name(path: Seq<char>) -> Seq<char> {
    base_of(path).take(hash_at(base_of(path)))
}

/// A file that is never called, in words.
pub open spec fn ghost_finding(
    g: GhostView,
    source: Seq<char>,
    archive_dir: Seq<char>,
    per_session: AmountView,
    total: Seq<char>,
) -> FindingView {
    FindingView {
        kind: g.kind.kebab(),
        severity: per_session.severity,
        session_id: "ghost:"@ + g.path,
        title: "Ghost "@ + g.kind.bare() + ": "@ + title_name(g.path) + " ("@ + source
            + ")"@,
        detail: g.path + " is part of the user-installed "@ + source + " surface (~"@
            + waste::with_commas(g.size_tokens as nat)
            + " tokens) but its basename was never invoked as a tool / agent / command / prompt in the observed window."@
            + sessions_part(g, source) + " Per-session cost "@ + per_session.text + "; cumulative "@ + total
            + "."@ + counted_part(g),
        tokens_per_session: Some(g.size_tokens as u64),
        cost_key: per_session.key,
        actions: seq![ghost_action(g, archive_dir)],
        event_source: None,
    }
}

fn write_action(found: &GhostSurfaceFinding, archive_dir: &str) -> (r: WasteAction)
    ensures
        r@ == ghost_action(found@, archive_dir@),
{
    match split_synthetic_path(found.path.as_str()) {
        Some((file, pointer)) => {
            let mut label = text::join3("Remove ghost ", found.kind.as_kebab(), " from ");
            text::push_str(&mut label, basename_of(file.as_str()).as_str());
            let mut words = text::join3("Edit ", file.as_str(), " and remove the entry at ");
            text::push_str(&mut words, pointer.as_str());
            text::push_str(&mut words, ".");
            WasteAction::Paste { label, text: words }
        },
        None => {
            let label = text::join2("Archive ghost ", found.kind.as_kebab());
            let into = text::join2(archive_dir, "/");
            let mut words = text::join3(
                "mkdir -p ",
                shell_quote(archive_dir).as_str(),
                " && mv ",
            );
            text::push_str(&mut words, shell_quote(found.path.as_str()).as_str());
            text::push_str(&mut words, " ");
            text::push_str(&mut words, shell_quote(into.as_str()).as_str());
            WasteAction::Command { label, text: words }
        },
    }
}

fn write_detail(found: &GhostSurfaceFinding, source: &str, per_session: &str, total: &str) -> (r: String)
    ensures
        r@ == found@.path + " is part of the user-installed "@ + source@
            + " surface (~"@ + waste::with_commas(found@.size_tokens as nat)
            + " tokens) but its basename was never invoked as a tool / agent / command / prompt in the observed window."@
            + sessions_part(found@, source@) + " Per-session cost "@ + per_session@ + "; cumulative "@
            + total@ + "."@ + counted_part(found@),
{
    let mut d = text::join3(
        found.path.as_str(),
        " is part of the user-installed ",
        source,
    );
    text::push_str(&mut d, " surface (~");
    text::push_str(&mut d, waste::format_with_commas(found.size_tokens as u128).as_str());
    text::push_str(
        &mut d,
        " tokens) but its basename was never invoked as a tool / agent / command / prompt in the observed window.",
    );
    let mut sessions = String::new();
    if found.session_count > 0 {
        text::push_str(&mut sessions, " Observed across ");
        text::push_str(&mut sessions, text::decimal_string(found.session_count).as_str());
        text::push_str(&mut sessions, " ");
        text::push_str(&mut sessions, source);
        text::push_str(&mut sessions, " session(s) in the lookback window.");
    }
    assert(sessions@ =~= sessions_part(found@, source@));
    text::push_str(&mut d, sessions.as_str());
    text::push_str(&mut d, " Per-session cost ");
    text::push_str(&mut d, per_session);
    text::push_str(&mut d, "; cumulative ");
    text::push_str(&mut d, total);
    text::push_str(&mut d, ".");
    let counted = match found.counted_by_catalog_bloat {
        Some(true) => " Cost is reported as $0 here because the OpenCode catalog-bloat detector already attributes this entry — see `burn hotspots --patterns opencode-system-prompt`.".to_owned(),
        _ => String::new(),
    };
    assert(counted@ =~= counted_part(found@));
    text::push_str(&mut d, counted.as_str());
    d
}

/// A file that is never called, in words. How bad it is goes by what one
/// session pays, and `usual_dir` is the archive where the options name none.
pub fn ghost_surface_to_finding(
    found: &GhostSurfaceFinding,
    options: &GhostSurfaceFindingOptions,
    names: &SourceNames,
    usual_dir: &str,
    per_session: &Amount,
    total: &str,
) -> (r: WasteFinding)
    ensures
        r@ == ghost_finding(
            found@,
            names.of(found.source),
            (match options.archive_dir {
                Some(d) => d@,
                None => usual_dir@,
            }),
            per_session@,
            total@,
        ),
{
    let source = names.name(found.source);
    let dir = match &options.archive_dir {
        Some(d) => d.as_str(),
        None => usual_dir,
    };
    let mut actions: Vec<WasteAction> = Vec::new();
    actions.push(write_action(found, dir));
    assert(waste::action_views(actions@) =~= seq![ghost_action(found@, dir@)]);
    let base = basename_of(found.path.as_str());
    let cs = text::chars_of(base.as_str());
    let at = find_hash(&cs);
    let name = text::string_of(&cs, 0, at);
    assert(name@ =~= title_name(found@.path));
    let mut title = text::join3("Ghost ", found.kind.bare_name(), ": ");
    text::push_str(&mut title, name.as_str());
    text::push_str(&mut title, " (");
    text::push_str(&mut title, source);
    text::push_str(&mut title, ")");
    WasteFinding {
        kind: found.kind.as_kebab().to_owned(),
        severity: per_session.severity,
        session_id: text::join2("ghost:", found.path.as_str()),
        title,
        detail: write_detail(found, source, per_session.text.as_str(), total),
        tokens_per_session: Some(found.size_tokens),
        cost_key: per_session.key,
        actions,
        event_source: None,
    }
}

} // verus!
