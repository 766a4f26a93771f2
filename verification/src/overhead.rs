//! The instruction files that harnesses put into the prompt at startup, and
//! what they cost.

use crate::attempts;
use crate::claude_md;
use crate::claude_md::ParsedClaudeMd;
use crate::md_cost;
use crate::md_cost::ClaudeMdAttributionResult;
use crate::order;
use crate::outside;
use crate::records::{SourceKind, SourceNames, TurnRecord};
use crate::streaks;
use crate::text;
use vstd::prelude::*;

verus! {

/// The convention that a file follows.
#[derive(Debug, Clone, Copy, PartialEq, Eq, Structural, Hash)]
pub enum OverheadFileKind {
    ClaudeMd,
    AgentsMd,
}

/// Where a file stands.
#[derive(Debug, Clone, Copy, PartialEq, Eq, Structural, Hash)]
pub enum OverheadFileScope {
    User,
    Ancestor,
    Project,
}

impl OverheadFileScope {
    /// The name on the wire.
    pub open spec fn wire(self) -> Seq<char> {
        match self {
            OverheadFileScope::User => "user"@,
            OverheadFileScope::Ancestor => "ancestor"@,
            OverheadFileScope::Project => "project"@,
        }
    }

    /// The name on the wire.
    pub fn wire_str(self) -> (r: &'static str)
        ensures
            r@ == self.wire(),
    {
        match self {
            OverheadFileScope::User => "user",
            OverheadFileScope::Ancestor => "ancestor",
            OverheadFileScope::Project => "project",
        }
    }
}

/// What tells one file on disk from another, whatever path leads to it.
#[derive(Debug, Clone, PartialEq, Eq)]
pub enum FileIdentity {
    Unix { device: u64, inode: u64 },
    Canonical(String),
}

/// What a [`FileIdentity`] says.
pub enum IdentityView {
    Unix { device: u64, inode: u64 },
    Canonical(Seq<char>),
}

impl View for FileIdentity {
    type V = IdentityView;

    open spec fn view(&self) -> IdentityView {
        match self {
            FileIdentity::Unix { device, inode } => IdentityView::Unix {
                device: *device,
                inode: *inode,
            },
            FileIdentity::Canonical(p) => IdentityView::Canonical(p@),
        }
    }
}

/// What was found at a path.
#[derive(Debug, Clone, PartialEq)]
pub enum Probe {
    /// No file is there.
    Missing,
    /// A file is there that cannot be read.
    Unreadable,
    /// A file is there, with these bytes.
    Read { bytes: Vec<u8>, identity: FileIdentity },
}

/// A path that a file may stand at.
#[derive(Debug, Clone, PartialEq)]
pub struct Candidate {
    pub path: String,
    pub probe: Probe,
}

/// The candidates in one directory.
#[derive(Debug, Clone, PartialEq)]
pub struct DirProbe {
    /// Whether the directory holds a `.git`.
    pub has_git: bool,
    /// The memory file of the project's harness.
    pub claude: Candidate,
    /// The same memory file, in the harness's own settings directory.
    pub dot_claude: Candidate,
    /// The personal memory file, kept out of version control.
    pub claude_local: Candidate,
    /// `AGENTS.override.md`
    pub agents_override: Candidate,
    /// `AGENTS.md`
    pub agents: Candidate,
}

/// Everything that discovery looks at.
#[derive(Debug, Clone, PartialEq)]
pub struct DiscoveryProbe {
    /// The memory file in the user's own home.
    pub user_claude: Candidate,
    /// `AGENTS.override.md` in the home of Codex
    pub codex_override: Candidate,
    /// `AGENTS.md` in the home of Codex
    pub codex_agents: Candidate,
    /// `AGENTS.md` in the configuration of Opencode
    pub opencode_agents: Candidate,
    /// The directory of the project and those above it, the nearest first.
    pub dirs: Vec<DirProbe>,
    /// How many of the directories the project's harness looks at.
    pub claude_dirs: usize,
}

/// A file that is put into the prompt at startup.
#[derive(Debug, Clone, PartialEq)]
pub struct OverheadFile {
    pub kind: OverheadFileKind,
    pub path: String,
    pub scope: OverheadFileScope,
    /// The harnesses that read it.
    pub applies_to: Vec<SourceKind>,
    /// Number of leading bytes that are put into the prompt.
    pub content_bytes: usize,
}

/// Bytes that Codex takes from the chain of a project.
pub const DEFAULT_CODEX_PROJECT_DOC_MAX_BYTES: usize = 32768;

/// Whether the bytes are nothing but white space as text.
pub open spec fn is_blank(bytes: Seq<u8>) -> bool {
    text::all_space(outside::lossy_text(bytes))
}

/// Whether a file stands at the path.
pub open spec fn is_file(c: Candidate) -> bool {
    !(c.probe is Missing)
}

/// Whether a file stands at the path that has something in it.
pub open spec fn is_filled(c: Candidate) -> bool {
    c.probe is Read && !is_blank(c.probe->Read_bytes@)
}

/// Number of bytes of the file.
pub open spec fn size(c: Candidate) -> nat {
    c.probe->Read_bytes@.len()
}

/// A file that a harness takes, up to `limit` bytes.
pub struct Offer {
    pub kind: OverheadFileKind,
    pub file: Candidate,
    pub scope: OverheadFileScope,
    pub source: SourceKind,
    pub limit: nat,
}

/// A file that was found.
#[verifier::ext_equal]
pub struct FoundView {
    pub identity: IdentityView,
    pub kind: OverheadFileKind,
    pub path: Seq<char>,
    pub scope: OverheadFileScope,
    pub applies_to: Seq<SourceKind>,
    pub content_bytes: nat,
}

/// The smaller of two numbers.
pub open spec fn least(a: nat, b: nat) -> nat {
    if a < b {
        a
    } else {
        b
    }
}

/// How much of the file goes into the prompt.
pub open spec fn taken(o: Offer) -> nat {
    least(o.limit, size(o.file))
}

/// Whether something of the file goes into the prompt.
pub open spec fn counts(o: Offer) -> bool {
    is_filled(o.file) && taken(o) > 0 && !is_blank(o.file.probe->Read_bytes@.take(taken(o) as int))
}

/// The position of the first entry that is the same file of the same kind.
pub open spec fn slot_of(
    found: Seq<FoundView>,
    identity: IdentityView,
    kind: OverheadFileKind,
) -> int
    decreases found.len(),
{
    if found.len() == 0 || (found[0].identity == identity && found[0].kind == kind) {
        0
    } else {
        1 + slot_of(found.drop_first(), identity, kind)
    }
}

/// The entry with one more harness that takes `n` bytes of it.
pub open spec fn shared(f: FoundView, source: SourceKind, n: nat) -> FoundView {
    FoundView {
        applies_to: if f.applies_to.contains(source) {
            f.applies_to
        } else {
            f.applies_to.push(source)
        },
        content_bytes: least(f.content_bytes, n),
        ..f
    }
}

/// The files with an offer added. A file that is there already, under whatever
/// path, is shared; the shorter of the two lengths stands.
pub open spec fn with_offer(found: Seq<FoundView>, o: Offer) -> Seq<FoundView> {
    if !counts(o) {
        found
    } else {
        let identity = o.file.probe->Read_identity@;
        let at = slot_of(found, identity, o.kind);
        if at < found.len() {
            found.update(at, shared(found[at], o.source, taken(o)))
        } else {
            found.push(
                FoundView {
                    identity,
                    kind: o.kind,
                    path: o.file.path@,
                    scope: o.scope,
                    applies_to: seq![o.source],
                    content_bytes: taken(o),
                },
            )
        }
    }
}

/// The files that the offers come to.
pub open spec fn collected(offers: Seq<Offer>) -> Seq<FoundView>
    decreases offers.len(),
{
    if offers.len() == 0 {
        Seq::empty()
    } else {
        with_offer(collected(offers.drop_last()), offers.last())
    }
}

/// The nearest directory with a `.git`; the length where there is none.
pub open spec fn git_slot(dirs: Seq<DirProbe>) -> int
    decreases dirs.len(),
{
    if dirs.len() == 0 || dirs[0].has_git {
        0
    } else {
        1 + git_slot(dirs.drop_first())
    }
}

/// How far up the project reaches: to the directory with the `.git`, or else it
/// is the directory itself.
pub open spec fn project_top(dirs: Seq<DirProbe>) -> int {
    if git_slot(dirs) < dirs.len() {
        git_slot(dirs)
    } else {
        0
    }
}

/// Number of directories of the project.
pub open spec fn project_len(dirs: Seq<DirProbe>) -> int {
    if dirs.len() == 0 {
        0
    } else {
        project_top(dirs) + 1
    }
}

/// All of the file.
pub open spec fn whole(
    kind: OverheadFileKind,
    file: Candidate,
    scope: OverheadFileScope,
    source: SourceKind,
) -> Offer {
    Offer { kind, file, scope, source, limit: size(file) }
}

/// What Codex takes from its home: the first of the two with something in it.
pub open spec fn codex_user_offers(p: DiscoveryProbe) -> Seq<Offer> {
    if is_filled(p.codex_override) {
        seq![
            whole(
                OverheadFileKind::AgentsMd,
                p.codex_override,
                OverheadFileScope::User,
                SourceKind::Codex,
            ),
        ]
    } else if is_filled(p.codex_agents) {
        seq![
            whole(
                OverheadFileKind::AgentsMd,
                p.codex_agents,
                OverheadFileScope::User,
                SourceKind::Codex,
            ),
        ]
    } else {
        Seq::empty()
    }
}

/// What Opencode takes for the user: the first of the two that is there, even
/// where nothing is in it.
pub open spec fn opencode_user_offers(p: DiscoveryProbe) -> Seq<Offer> {
    if is_file(p.opencode_agents) {
        if is_filled(p.opencode_agents) {
            seq![
                whole(
                    OverheadFileKind::AgentsMd,
                    p.opencode_agents,
                    OverheadFileScope::User,
                    SourceKind::Opencode,
                ),
            ]
        } else {
            Seq::empty()
        }
    } else if is_filled(p.user_claude) {
        seq![
            whole(
                OverheadFileKind::ClaudeMd,
                p.user_claude,
                OverheadFileScope::User,
                SourceKind::Opencode,
            ),
        ]
    } else {
        Seq::empty()
    }
}

/// What the project's harness takes from one directory.
pub open spec fn claude_dir_offers(dirs: Seq<DirProbe>, i: int) -> Seq<Offer> {
    let scope = if i <= project_top(dirs) {
        OverheadFileScope::Project
    } else {
        OverheadFileScope::Ancestor
    };
    let cc = SourceKind::ClaudeCode;
    let kind = OverheadFileKind::ClaudeMd;
    let own = seq![whole(kind, dirs[i].claude, scope, cc)];
    let dot = if i == project_top(dirs) {
        seq![whole(kind, dirs[i].dot_claude, OverheadFileScope::Project, cc)]
    } else {
        Seq::empty()
    };
    own + dot + seq![whole(kind, dirs[i].claude_local, scope, cc)]
}

/// What the project's harness takes from the first `n` directories, the
/// farthest first.
pub open spec fn claude_offers(dirs: Seq<DirProbe>, n: int) -> Seq<Offer>
    decreases n,
{
    if n <= 0 {
        Seq::empty()
    } else {
        claude_dir_offers(dirs, n - 1) + claude_offers(dirs, n - 1)
    }
}

/// The file that Codex chooses in a directory: the override where it is there,
/// even where nothing is in it.
pub open spec fn codex_choice(d: DirProbe) -> Candidate {
    if is_file(d.agents_override) {
        d.agents_override
    } else {
        d.agents
    }
}

/// What Codex takes of a directory where `room` bytes are left.
pub open spec fn codex_dir_offer(d: DirProbe, room: nat) -> Offer {
    Offer {
        kind: OverheadFileKind::AgentsMd,
        file: codex_choice(d),
        scope: OverheadFileScope::Project,
        source: SourceKind::Codex,
        limit: least(size(codex_choice(d)), room),
    }
}

/// What Codex takes from the first `n` directories, the farthest first, with
/// `room` bytes for all of them.
pub open spec fn codex_offers(dirs: Seq<DirProbe>, n: int, room: nat) -> Seq<Offer>
    decreases n,
{
    if n <= 0 {
        Seq::empty()
    } else {
        let o = codex_dir_offer(dirs[n - 1], room);
        if counts(o) {
            seq![o] + codex_offers(dirs, n - 1, (room - taken(o)) as nat)
        } else {
            codex_offers(dirs, n - 1, room)
        }
    }
}

/// Whether one of the first `n` directories has an `AGENTS.md`.
pub open spec fn some_agents(dirs: Seq<DirProbe>, n: int) -> bool {
    exists|i: int| 0 <= i < n && is_file(#[trigger] dirs[i].agents)
}

/// What Opencode takes from the first `n` directories, the farthest first: all
/// files of the first convention that any of them follows.
pub open spec fn opencode_offers(dirs: Seq<DirProbe>, n: int, agents: bool) -> Seq<Offer>
    decreases n,
{
    if n <= 0 {
        Seq::empty()
    } else {
        let o = if agents {
            whole(
                OverheadFileKind::AgentsMd,
                dirs[n - 1].agents,
                OverheadFileScope::Project,
                SourceKind::Opencode,
            )
        } else {
            whole(
                OverheadFileKind::ClaudeMd,
                dirs[n - 1].claude,
                OverheadFileScope::Project,
                SourceKind::Opencode,
            )
        };
        seq![o] + opencode_offers(dirs, n - 1, agents)
    }
}

/// What the harnesses take, in the order in which it is looked for.
pub open spec fn all_offers(p: DiscoveryProbe) -> Seq<Offer> {
    let dirs = p.dirs@;
    let n = project_len(dirs);
    seq![
        whole(
            OverheadFileKind::ClaudeMd,
            p.user_claude,
            OverheadFileScope::User,
            SourceKind::ClaudeCode,
        ),
    ] + codex_user_offers(p) + opencode_user_offers(p) + claude_offers(
        dirs,
        least(p.claude_dirs as nat, dirs.len()) as int,
    ) + codex_offers(dirs, n, DEFAULT_CODEX_PROJECT_DOC_MAX_BYTES as nat) + opencode_offers(
        dirs,
        n,
        some_agents(dirs, n),
    )
}

/// What a file says, but for its identity.
pub open spec fn is_found(r: OverheadFile, f: FoundView) -> bool {
    &&& r.kind == f.kind
    &&& r.path@ == f.path
    &&& r.scope == f.scope
    &&& r.applies_to@ == f.applies_to
    &&& r.content_bytes == f.content_bytes
}

struct Entry {
    identity: FileIdentity,
    file: OverheadFile,
}

impl Entry {
    spec fn view(&self) -> FoundView {
        FoundView {
            identity: self.identity@,
            kind: self.file.kind,
            path: self.file.path@,
            scope: self.file.scope,
            applies_to: self.file.applies_to@,
            content_bytes: self.file.content_bytes as nat,
        }
    }
}

spec fn entry_views(v: Seq<Entry>) -> Seq<FoundView> {
    v.map_values(|e: Entry| e@)
}

fn check_blank(bytes: &[u8]) -> (r: bool)
    ensures
        r == is_blank(bytes@),
{
    let s = outside::from_utf8_lossy(bytes);
    let cs = text::chars_of(s.as_str());
    let mut i: usize = 0;
    while i < cs.len()
        invariant
            i <= cs@.len(),
            cs@ == outside::lossy_text(bytes@),
            forall|k: int| 0 <= k < i ==> text::is_space(#[trigger] cs@[k]),
        decreases cs@.len() - i,
    {
        if !text::is_whitespace(cs[i]) {
            return false;
        }
        i = i + 1;
    }
    true
}

fn check_file(c: &Candidate) -> (r: bool)
    ensures
        r == is_file(*c),
{
    match &c.probe {
        Probe::Missing => false,
        _ => true,
    }
}

fn readable_nonempty_bytes(c: &Candidate) -> (r: Option<usize>)
    ensures
        match r {
            Some(n) => is_filled(*c) && n == size(*c),
            None => !is_filled(*c),
        },
{
    match &c.probe {
        Probe::Read { bytes, .. } => if check_blank(bytes.as_slice()) {
            None
        } else {
            Some(bytes.len())
        },
        _ => None,
    }
}

fn same_identity(a: &FileIdentity, b: &FileIdentity) -> (r: bool)
    ensures
        r == (a@ == b@),
{
    match (a, b) {
        (
            FileIdentity::Unix { device: d, inode: i },
            FileIdentity::Unix { device: e, inode: j },
        ) => *d == *e && *i == *j,
        (FileIdentity::Canonical(x), FileIdentity::Canonical(y)) => text::same(
            x.as_str(),
            y.as_str(),
        ),
        _ => false,
    }
}

fn copy_identity(a: &FileIdentity) -> (r: FileIdentity)
    ensures
        r@ == a@,
{
    match a {
        FileIdentity::Unix { device, inode } => FileIdentity::Unix {
            device: *device,
            inode: *inode,
        },
        FileIdentity::Canonical(p) => FileIdentity::Canonical(p.clone()),
    }
}

fn find_slot(found: &Vec<Entry>, identity: &FileIdentity, kind: OverheadFileKind) -> (r: usize)
    ensures
        r == slot_of(entry_views(found@), identity@, kind),
        r <= found@.len(),
{
    let ghost all = entry_views(found@);
    let mut i: usize = 0;
    assert(all.skip(0) =~= all);
    while i < found.len()
        invariant
            i <= found@.len(),
            all == entry_views(found@),
            slot_of(all, identity@, kind) == i + slot_of(all.skip(i as int), identity@, kind),
        decreases found@.len() - i,
    {
        assert(all.skip(i as int)[0] == found@[i as int]@);
        if same_identity(&found[i].identity, identity) && found[i].file.kind == kind {
            return i;
        }
        assert(all.skip(i as int).drop_first() =~= all.skip(i + 1));
        i = i + 1;
    }
    i
}

fn holds_source(v: &Vec<SourceKind>, s: SourceKind) -> (r: bool)
    ensures
        r == v@.contains(s),
{
    let mut i: usize = 0;
    while i < v.len()
        invariant
            i <= v@.len(),
            forall|k: int| 0 <= k < i ==> #[trigger] v@[k] != s,
        decreases v@.len() - i,
    {
        if v[i] == s {
            return true;
        }
        i = i + 1;
    }
    false
}

fn add_file(
    found: &mut Vec<Entry>,
    kind: OverheadFileKind,
    file: &Candidate,
    scope: OverheadFileScope,
    source: SourceKind,
    limit: usize,
) -> (r: usize)
    ensures
        entry_views(final(found)@) == with_offer(
            entry_views(old(found)@),
            Offer { kind, file: *file, scope, source, limit: limit as nat },
        ),
        ({
            let o = Offer { kind, file: *file, scope, source, limit: limit as nat };
            r == if counts(o) {
                taken(o)
            } else {
                0
            }
        }),
{
    let ghost before = entry_views(found@);
    let ghost o = Offer { kind, file: *file, scope, source, limit: limit as nat };
    match &file.probe {
        Probe::Read { bytes, identity } => {
            if check_blank(bytes.as_slice()) {
                return 0;
            }
            let n: usize = if limit < bytes.len() {
                limit
            } else {
                bytes.len()
            };
            if n == 0 {
                return 0;
            }
            let head = vstd::slice::slice_subrange(bytes.as_slice(), 0, n);
            assert(head@ =~= bytes@.take(n as int));
            if check_blank(head) {
                return 0;
            }
            assert(counts(o));
            let at: usize = find_slot(found, identity, kind);
            if at < found.len() {
                assert(before[at as int] == found@[at as int]@);
                let mut e = found.remove(at);
                if !holds_source(&e.file.applies_to, source) {
                    e.file.applies_to.push(source);
                }
                if n < e.file.content_bytes {
                    e.file.content_bytes = n;
                }
                assert(e@ =~= shared(before[at as int], source, n as nat));
                found.insert(at, e);
                assert(entry_views(found@) =~= before.update(
                    at as int,
                    shared(before[at as int], source, n as nat),
                ));
            } else {
                let mut applies_to: Vec<SourceKind> = Vec::new();
                applies_to.push(source);
                assert(applies_to@ =~= seq![source]);
                let e = Entry {
                    identity: copy_identity(identity),
                    file: OverheadFile {
                        kind,
                        path: file.path.clone(),
                        scope,
                        applies_to,
                        content_bytes: n,
                    },
                };
                found.push(e);
                assert(entry_views(found@) =~= before.push(e@));
            }
            n
        },
        _ => 0,
    }
}

proof fn lemma_limit(found: Seq<FoundView>, a: Offer, b: Offer)
    requires
        a.kind == b.kind,
        a.file == b.file,
        a.scope == b.scope,
        a.source == b.source,
        a.file.probe is Read ==> taken(a) == taken(b),
    ensures
        with_offer(found, a) == with_offer(found, b),
{
}

proof fn lemma_collected_push(offers: Seq<Offer>, o: Offer)
    ensures
        collected(offers.push(o)) == with_offer(collected(offers), o),
{
    assert(offers.push(o).drop_last() =~= offers);
}

fn add_whole(
    found: &mut Vec<Entry>,
    kind: OverheadFileKind,
    file: &Candidate,
    scope: OverheadFileScope,
    source: SourceKind,
    Ghost(offers): Ghost<Seq<Offer>>,
)
    requires
        entry_views(old(found)@) == collected(offers),
    ensures
        entry_views(final(found)@) == collected(offers.push(whole(kind, *file, scope, source))),
{
    let ghost before = entry_views(found@);
    let _ = add_file(found, kind, file, scope, source, usize::MAX);
    proof {
        let a = Offer { kind, file: *file, scope, source, limit: usize::MAX as nat };
        let b = whole(kind, *file, scope, source);
        match &file.probe {
            Probe::Read { bytes, .. } => {
                assert(bytes@.len() <= usize::MAX) by {
                    lemma_vec_len(*bytes);
                }
            },
            _ => {},
        }
        lemma_limit(before, a, b);
        lemma_collected_push(offers, b);
    }
}

proof fn lemma_vec_len(v: Vec<u8>)
    ensures
        v@.len() <= usize::MAX,
{
    broadcast use vstd::std_specs::vec::group_vec_axioms;
    assert(v@.len() == v.len());
}

fn find_git_slot(dirs: &Vec<DirProbe>) -> (r: usize)
    ensures
        r == git_slot(dirs@),
        r <= dirs@.len(),
{
    let mut i: usize = 0;
    assert(dirs@.skip(0) =~= dirs@);
    while i < dirs.len()
        invariant
            i <= dirs@.len(),
            git_slot(dirs@) == i + git_slot(dirs@.skip(i as int)),
        decreases dirs@.len() - i,
    {
        assert(dirs@.skip(i as int)[0] == dirs@[i as int]);
        if dirs[i].has_git {
            return i;
        }
        assert(dirs@.skip(i as int).drop_first() =~= dirs@.skip(i + 1));
        i = i + 1;
    }
    i
}

fn find_project_top(dirs: &Vec<DirProbe>) -> (r: usize)
    ensures
        r == project_top(dirs@),
        dirs@.len() > 0 ==> r < dirs@.len(),
{
    let g: usize = find_git_slot(dirs);
    if g < dirs.len() {
        g
    } else {
        0
    }
}

fn add_user_files(found: &mut Vec<Entry>, p: &DiscoveryProbe, Ghost(offers): Ghost<Seq<Offer>>)
    requires
        entry_views(old(found)@) == collected(offers),
    ensures
        entry_views(final(found)@) == collected(
            offers + codex_user_offers(*p) + opencode_user_offers(*p),
        ),
{
    let ghost mut done = offers;
    if readable_nonempty_bytes(&p.codex_override).is_some() {
        add_whole(
            found,
            OverheadFileKind::AgentsMd,
            &p.codex_override,
            OverheadFileScope::User,
            SourceKind::Codex,
            Ghost(offers),
        );
        proof {
            done = offers + codex_user_offers(*p);
            assert(done =~= offers.push(codex_user_offers(*p)[0]));
        }
    } else if readable_nonempty_bytes(&p.codex_agents).is_some() {
        add_whole(
            found,
            OverheadFileKind::AgentsMd,
            &p.codex_agents,
            OverheadFileScope::User,
            SourceKind::Codex,
            Ghost(offers),
        );
        proof {
            done = offers + codex_user_offers(*p);
            assert(done =~= offers.push(codex_user_offers(*p)[0]));
        }
    } else {
        assert(offers + codex_user_offers(*p) =~= offers);
    }
    assert(done == offers + codex_user_offers(*p));
    if check_file(&p.opencode_agents) {
        if readable_nonempty_bytes(&p.opencode_agents).is_some() {
            add_whole(
                found,
                OverheadFileKind::AgentsMd,
                &p.opencode_agents,
                OverheadFileScope::User,
                SourceKind::Opencode,
                Ghost(done),
            );
            assert(done + opencode_user_offers(*p) =~= done.push(opencode_user_offers(*p)[0]));
        } else {
            assert(done + opencode_user_offers(*p) =~= done);
        }
    } else if readable_nonempty_bytes(&p.user_claude).is_some() {
        add_whole(
            found,
            OverheadFileKind::ClaudeMd,
            &p.user_claude,
            OverheadFileScope::User,
            SourceKind::Opencode,
            Ghost(done),
        );
        assert(done + opencode_user_offers(*p) =~= done.push(opencode_user_offers(*p)[0]));
    } else {
        assert(done + opencode_user_offers(*p) =~= done);
    }
}

fn add_claude_dir(
    found: &mut Vec<Entry>,
    dirs: &Vec<DirProbe>,
    i: usize,
    Ghost(offers): Ghost<Seq<Offer>>,
)
    requires
        i < dirs@.len(),
        entry_views(old(found)@) == collected(offers),
    ensures
        entry_views(final(found)@) == collected(offers + claude_dir_offers(dirs@, i as int)),
{
    let top: usize = find_project_top(dirs);
    let d = &dirs[i];
    let scope = if i <= top {
        OverheadFileScope::Project
    } else {
        OverheadFileScope::Ancestor
    };
    let ghost list = claude_dir_offers(dirs@, i as int);
    let ghost first = offers.push(list[0]);
    add_whole(
        found,
        OverheadFileKind::ClaudeMd,
        &d.claude,
        scope,
        SourceKind::ClaudeCode,
        Ghost(offers),
    );
    assert(entry_views(found@) == collected(first));
    if i == top {
        add_whole(
            found,
            OverheadFileKind::ClaudeMd,
            &d.dot_claude,
            OverheadFileScope::Project,
            SourceKind::ClaudeCode,
            Ghost(first),
        );
        let ghost second = first.push(list[1]);
        assert(entry_views(found@) == collected(second));
        add_whole(
            found,
            OverheadFileKind::ClaudeMd,
            &d.claude_local,
            scope,
            SourceKind::ClaudeCode,
            Ghost(second),
        );
        assert(list.len() == 3);
        assert(offers + list =~= second.push(list[2]));
    } else {
        add_whole(
            found,
            OverheadFileKind::ClaudeMd,
            &d.claude_local,
            scope,
            SourceKind::ClaudeCode,
            Ghost(first),
        );
        assert(list.len() == 2);
        assert(offers + list =~= first.push(list[1]));
    }
}

fn add_claude_files(
    found: &mut Vec<Entry>,
    dirs: &Vec<DirProbe>,
    n: usize,
    Ghost(offers): Ghost<Seq<Offer>>,
)
    requires
        n <= dirs@.len(),
        entry_views(old(found)@) == collected(offers),
    ensures
        entry_views(final(found)@) == collected(offers + claude_offers(dirs@, n as int)),
{
    let mut i: usize = n;
    let ghost mut done = offers;
    while i > 0
        invariant
            i <= n <= dirs@.len(),
            entry_views(found@) == collected(done),
            done + claude_offers(dirs@, i as int) == offers + claude_offers(dirs@, n as int),
        decreases i,
    {
        add_claude_dir(found, dirs, i - 1, Ghost(done));
        proof {
            let list = claude_dir_offers(dirs@, i - 1);
            assert(done + claude_offers(dirs@, i as int) =~= (done + list) + claude_offers(
                dirs@,
                i - 1,
            ));
            done = done + list;
        }
        i = i - 1;
    }
    assert(done + claude_offers(dirs@, 0) =~= done);
}

fn add_codex_files(
    found: &mut Vec<Entry>,
    dirs: &Vec<DirProbe>,
    n: usize,
    Ghost(offers): Ghost<Seq<Offer>>,
)
    requires
        n <= dirs@.len(),
        entry_views(old(found)@) == collected(offers),
    ensures
        entry_views(final(found)@) == collected(
            offers + codex_offers(
                dirs@,
                n as int,
                DEFAULT_CODEX_PROJECT_DOC_MAX_BYTES as nat,
            ),
        ),
{
    let mut i: usize = n;
    let mut room: usize = DEFAULT_CODEX_PROJECT_DOC_MAX_BYTES;
    let ghost all = offers + codex_offers(
        dirs@,
        n as int,
        DEFAULT_CODEX_PROJECT_DOC_MAX_BYTES as nat,
    );
    let ghost mut done = offers;
    while i > 0
        invariant
            i <= n <= dirs@.len(),
            entry_views(found@) == collected(done),
            done + codex_offers(dirs@, i as int, room as nat) == all,
        decreases i,
    {
        let d = &dirs[i - 1];
        let file = if check_file(&d.agents_override) {
            &d.agents_override
        } else {
            &d.agents
        };
        let ghost o = codex_dir_offer(*d, room as nat);
        let ghost before = entry_views(found@);
        let n: usize = add_file(
            found,
            OverheadFileKind::AgentsMd,
            file,
            OverheadFileScope::Project,
            SourceKind::Codex,
            room,
        );
        proof {
            let a = Offer {
                kind: OverheadFileKind::AgentsMd,
                file: *file,
                scope: OverheadFileScope::Project,
                source: SourceKind::Codex,
                limit: room as nat,
            };
            lemma_limit(before, a, o);
            lemma_collected_push(done, o);
            if counts(o) {
                let rest = codex_offers(dirs@, i - 1, (room - taken(o)) as nat);
                assert(done + (seq![o] + rest) =~= done.push(o) + rest);
                done = done.push(o);
            }
        }
        room = room - n;
        i = i - 1;
    }
    assert(done + codex_offers(dirs@, 0, room as nat) =~= done);
}

fn add_opencode_files(
    found: &mut Vec<Entry>,
    dirs: &Vec<DirProbe>,
    n: usize,
    Ghost(offers): Ghost<Seq<Offer>>,
)
    requires
        n <= dirs@.len(),
        entry_views(old(found)@) == collected(offers),
    ensures
        entry_views(final(found)@) == collected(
            offers + opencode_offers(dirs@, n as int, some_agents(dirs@, n as int)),
        ),
{
    let mut agents = false;
    let mut k: usize = 0;
    while k < n && !agents
        invariant
            k <= n <= dirs@.len(),
            agents == exists|i: int| 0 <= i < k && is_file(#[trigger] dirs@[i].agents),
        decreases n - k,
    {
        agents = check_file(&dirs[k].agents);
        k = k + 1;
    }
    assert(agents == some_agents(dirs@, n as int));
    let mut i: usize = n;
    let ghost mut done = offers;
    while i > 0
        invariant
            i <= n <= dirs@.len(),
            entry_views(found@) == collected(done),
            done + opencode_offers(dirs@, i as int, agents) == offers + opencode_offers(
                dirs@,
                n as int,
                agents,
            ),
        decreases i,
    {
        let d = &dirs[i - 1];
        let ghost list = opencode_offers(dirs@, i as int, agents);
        if agents {
            add_whole(
                found,
                OverheadFileKind::AgentsMd,
                &d.agents,
                OverheadFileScope::Project,
                SourceKind::Opencode,
                Ghost(done),
            );
        } else {
            add_whole(
                found,
                OverheadFileKind::ClaudeMd,
                &d.claude,
                OverheadFileScope::Project,
                SourceKind::Opencode,
                Ghost(done),
            );
        }
        proof {
            assert(done + list =~= done.push(list[0]) + opencode_offers(dirs@, i - 1, agents));
            done = done.push(list[0]);
        }
        i = i - 1;
    }
    assert(done + opencode_offers(dirs@, 0, agents) =~= done);
}

/// The files that the harnesses put into the prompt at startup, in the order in
/// which they are looked for.
pub fn find_overhead_files(p: &DiscoveryProbe) -> (r: Vec<OverheadFile>)
    ensures
        r@.len() == collected(all_offers(*p)).len(),
        forall|i: int|
            0 <= i < r@.len() ==> is_found(#[trigger] r@[i], collected(all_offers(*p))[i]),
{
    let mut found: Vec<Entry> = Vec::new();
    let ghost none = Seq::<Offer>::empty();
    assert(entry_views(found@) =~= collected(none));
    let ghost first = whole(
        OverheadFileKind::ClaudeMd,
        p.user_claude,
        OverheadFileScope::User,
        SourceKind::ClaudeCode,
    );
    add_whole(
        &mut found,
        OverheadFileKind::ClaudeMd,
        &p.user_claude,
        OverheadFileScope::User,
        SourceKind::ClaudeCode,
        Ghost(none),
    );
    assert(none.push(first) =~= seq![first]);
    let ghost a = seq![first];
    add_user_files(&mut found, p, Ghost(a));
    let ghost b = a + codex_user_offers(*p) + opencode_user_offers(*p);
    let n: usize = if p.claude_dirs < p.dirs.len() {
        p.claude_dirs
    } else {
        p.dirs.len()
    };
    add_claude_files(&mut found, &p.dirs, n, Ghost(b));
    let ghost c = b + claude_offers(p.dirs@, n as int);
    let m: usize = if p.dirs.len() == 0 {
        0
    } else {
        find_project_top(&p.dirs) + 1
    };
    add_codex_files(&mut found, &p.dirs, m, Ghost(c));
    let ghost d = c + codex_offers(
        p.dirs@,
        m as int,
        DEFAULT_CODEX_PROJECT_DOC_MAX_BYTES as nat,
    );
    add_opencode_files(&mut found, &p.dirs, m, Ghost(d));
    let ghost all = entry_views(found@);
    assert(all == collected(all_offers(*p)));
    let mut out: Vec<OverheadFile> = Vec::new();
    let ghost mut k: int = 0;
    assert(found@.skip(0) =~= found@);
    let ghost given = found@;
    while found.len() > 0
        invariant
            0 <= k <= given.len(),
            all == entry_views(given),
            found@ == given.skip(k),
            out@.len() == k,
            forall|i: int| 0 <= i < k ==> is_found(#[trigger] out@[i], all[i]),
        decreases found@.len(),
    {
        let e = found.remove(0);
        proof {
            assert(e == given[k]);
            assert(all[k] == e@);
            assert(given.skip(k).remove(0) =~= given.skip(k + 1));
            k = k + 1;
        }
        out.push(e.file);
    }
    out
}

proof fn lemma_slot(found: Seq<FoundView>, identity: IdentityView, kind: OverheadFileKind)
    ensures
        0 <= slot_of(found, identity, kind) <= found.len(),
        slot_of(found, identity, kind) < found.len() ==> ({
            let f = found[slot_of(found, identity, kind)];
            f.identity == identity && f.kind == kind
        }),
        forall|i: int|
            0 <= i < slot_of(found, identity, kind) ==> !((#[trigger] found[i]).identity == identity
                && found[i].kind == kind),
    decreases found.len(),
{
    if found.len() > 0 && !(found[0].identity == identity && found[0].kind == kind) {
        let d = found.drop_first();
        lemma_slot(d, identity, kind);
        assert forall|i: int| 0 <= i < slot_of(found, identity, kind) implies !((
        #[trigger] found[i]).identity == identity && found[i].kind == kind) by {
            if i > 0 {
                assert(d[i - 1] == found[i]);
            }
        }
    }
}

/// No file is listed twice under one convention, and each entry names a harness
/// that reads something of it.
pub proof fn lemma_found_apart(offers: Seq<Offer>)
    ensures
        forall|i: int, j: int|
            0 <= i < j < collected(offers).len() ==> !((#[trigger] collected(offers)[i]).identity
                == (#[trigger] collected(offers)[j]).identity && collected(offers)[i].kind
                == collected(offers)[j].kind),
        forall|i: int|
            0 <= i < collected(offers).len() ==> (#[trigger] collected(
                offers,
            )[i]).applies_to.len() > 0 && collected(offers)[i].content_bytes > 0,
        forall|i: int|
            0 <= i < collected(offers).len() ==> (#[trigger] collected(
                offers,
            )[i]).applies_to.no_duplicates(),
    decreases offers.len(),
{
    if offers.len() > 0 {
        let before = collected(offers.drop_last());
        let o = offers.last();
        lemma_found_apart(offers.drop_last());
        if counts(o) {
            let identity = o.file.probe->Read_identity@;
            let at = slot_of(before, identity, o.kind);
            lemma_slot(before, identity, o.kind);
            let now = collected(offers);
            assert forall|i: int, j: int| 0 <= i < j < now.len() implies !((
            #[trigger] now[i]).identity == (#[trigger] now[j]).identity && now[i].kind
                == now[j].kind) by {
                if i < before.len() && j < before.len() {
                    assert(now[i].identity == before[i].identity && now[i].kind == before[i].kind);
                    assert(now[j].identity == before[j].identity && now[j].kind == before[j].kind);
                }
            }
            assert forall|i: int| 0 <= i < now.len() implies (
            #[trigger] now[i]).applies_to.no_duplicates() by {
                if i < before.len() {
                    assert(before[i].applies_to.no_duplicates());
                }
            }
        }
    }
}

/// Bytes that the offers come to.
pub open spec fn taken_in_all(offers: Seq<Offer>) -> nat
    decreases offers.len(),
{
    if offers.len() == 0 {
        0
    } else {
        taken(offers[0]) + taken_in_all(offers.drop_first())
    }
}

/// What Codex takes from a project is never more than the room that it has.
pub proof fn lemma_codex_budget(dirs: Seq<DirProbe>, n: int, room: nat)
    requires
        0 <= n <= dirs.len(),
    ensures
        taken_in_all(codex_offers(dirs, n, room)) <= room,
    decreases n,
{
    if n > 0 {
        let o = codex_dir_offer(dirs[n - 1], room);
        if counts(o) {
            let rest = codex_offers(dirs, n - 1, (room - taken(o)) as nat);
            lemma_codex_budget(dirs, n - 1, (room - taken(o)) as nat);
            let all = seq![o] + rest;
            assert(all.drop_first() =~= rest);
            assert(all[0] == o);
        } else {
            lemma_codex_budget(dirs, n - 1, room);
        }
    }
}

/// Bytes of an entry that count against what Codex takes from a project.
pub open spec fn codex_bytes(f: FoundView) -> nat {
    if f.scope == OverheadFileScope::Project && f.applies_to.contains(SourceKind::Codex) {
        f.content_bytes
    } else {
        0
    }
}

/// Bytes of all entries that count against what Codex takes from a project.
pub open spec fn codex_total(found: Seq<FoundView>) -> nat
    decreases found.len(),
{
    if found.len() == 0 {
        0
    } else {
        codex_total(found.drop_last()) + codex_bytes(found.last())
    }
}

proof fn lemma_codex_update(found: Seq<FoundView>, at: int, f: FoundView)
    requires
        0 <= at < found.len(),
    ensures
        codex_total(found.update(at, f)) == codex_total(found) - codex_bytes(found[at])
            + codex_bytes(f),
    decreases found.len(),
{
    let d = found.drop_last();
    let now = found.update(at, f);
    if at < d.len() {
        assert(now.drop_last() =~= d.update(at, f));
        lemma_codex_update(d, at, f);
    } else {
        assert(now.drop_last() =~= d);
    }
}

proof fn lemma_codex_offer(found: Seq<FoundView>, o: Offer)
    ensures
        codex_total(with_offer(found, o)) <= codex_total(found) + taken(o),
        o.source != SourceKind::Codex ==> codex_total(with_offer(found, o)) <= codex_total(found),
{
    if counts(o) {
        let identity = o.file.probe->Read_identity@;
        let at = slot_of(found, identity, o.kind);
        lemma_slot(found, identity, o.kind);
        if at < found.len() {
            let f = shared(found[at], o.source, taken(o));
            lemma_codex_update(found, at, f);
            let before = found[at].applies_to;
            if o.source != SourceKind::Codex && f.applies_to.contains(SourceKind::Codex) {
                let i = choose|i: int|
                    0 <= i < f.applies_to.len() && f.applies_to[i] == SourceKind::Codex;
                assert(before[i] == SourceKind::Codex);
                assert(before.contains(SourceKind::Codex));
            }
        } else {
            let now = with_offer(found, o);
            assert(now.drop_last() =~= found);
            if now.last().applies_to.contains(SourceKind::Codex) {
                assert(seq![o.source].contains(SourceKind::Codex));
            }
        }
    }
}

proof fn lemma_taken_last(offers: Seq<Offer>)
    requires
        offers.len() > 0,
    ensures
        taken_in_all(offers) == taken_in_all(offers.drop_last()) + taken(offers.last()),
    decreases offers.len(),
{
    if offers.len() > 1 {
        lemma_taken_last(offers.drop_first());
        assert(offers.drop_first().drop_last() =~= offers.drop_last().drop_first());
    } else {
        assert(offers.drop_first() =~= Seq::<Offer>::empty());
        assert(offers.drop_last() =~= Seq::<Offer>::empty());
    }
}

proof fn lemma_codex_offers(a: Seq<Offer>, b: Seq<Offer>)
    ensures
        codex_total(collected(a + b)) <= codex_total(collected(a)) + taken_in_all(b),
        (forall|i: int| 0 <= i < b.len() ==> (#[trigger] b[i]).source != SourceKind::Codex)
            ==> codex_total(collected(a + b)) <= codex_total(collected(a)),
    decreases b.len(),
{
    if b.len() == 0 {
        assert(a + b =~= a);
    } else {
        let d = b.drop_last();
        assert((a + b).drop_last() =~= a + d);
        lemma_codex_offers(a, d);
        lemma_codex_offer(collected(a + d), b.last());
        lemma_taken_last(b);
        assert(b[b.len() - 1] == b.last());
        if forall|i: int| 0 <= i < b.len() ==> (#[trigger] b[i]).source != SourceKind::Codex {
            assert forall|i: int| 0 <= i < d.len() implies (#[trigger] d[i]).source
                != SourceKind::Codex by {
                assert(d[i] == b[i]);
            }
        }
    }
}

proof fn lemma_user_offers(offers: Seq<Offer>)
    requires
        forall|i: int|
            0 <= i < offers.len() ==> (#[trigger] offers[i]).scope == OverheadFileScope::User,
    ensures
        forall|i: int|
            0 <= i < collected(offers).len() ==> (#[trigger] collected(offers)[i]).scope
                == OverheadFileScope::User,
    decreases offers.len(),
{
    if offers.len() > 0 {
        let d = offers.drop_last();
        assert(offers[offers.len() - 1] == offers.last());
        assert forall|i: int| 0 <= i < d.len() implies (#[trigger] d[i]).scope
            == OverheadFileScope::User by {
            assert(d[i] == offers[i]);
        }
        lemma_user_offers(d);
        let o = offers.last();
        if counts(o) {
            lemma_slot(collected(d), o.file.probe->Read_identity@, o.kind);
        }
    }
}

proof fn lemma_user_total(found: Seq<FoundView>)
    requires
        forall|i: int|
            0 <= i < found.len() ==> (#[trigger] found[i]).scope == OverheadFileScope::User,
    ensures
        codex_total(found) == 0,
    decreases found.len(),
{
    if found.len() > 0 {
        let d = found.drop_last();
        assert(found[found.len() - 1] == found.last());
        assert forall|i: int| 0 <= i < d.len() implies (#[trigger] d[i]).scope
            == OverheadFileScope::User by {
            assert(d[i] == found[i]);
        }
        lemma_user_total(d);
    }
}

proof fn lemma_claude_sources(dirs: Seq<DirProbe>, n: int)
    ensures
        forall|i: int|
            0 <= i < claude_offers(dirs, n).len() ==> (#[trigger] claude_offers(dirs, n)[i]).source
                == SourceKind::ClaudeCode,
    decreases n,
{
    if n > 0 {
        lemma_claude_sources(dirs, n - 1);
        let all = claude_offers(dirs, n);
        let own = claude_dir_offers(dirs, n - 1);
        assert forall|i: int| 0 <= i < all.len() implies (#[trigger] all[i]).source
            == SourceKind::ClaudeCode by {
            if i < own.len() {
                assert(all[i] == own[i]);
            } else {
                assert(all[i] == claude_offers(dirs, n - 1)[i - own.len()]);
            }
        }
    }
}

proof fn lemma_opencode_sources(dirs: Seq<DirProbe>, n: int, agents: bool)
    ensures
        forall|i: int|
            0 <= i < opencode_offers(dirs, n, agents).len() ==> (#[trigger] opencode_offers(
                dirs,
                n,
                agents,
            )[i]).source == SourceKind::Opencode,
    decreases n,
{
    if n > 0 {
        lemma_opencode_sources(dirs, n - 1, agents);
    }
}

proof fn lemma_project_len(dirs: Seq<DirProbe>)
    ensures
        0 <= git_slot(dirs) <= dirs.len(),
        0 <= project_len(dirs) <= dirs.len(),
    decreases dirs.len(),
{
    if dirs.len() > 0 {
        lemma_project_len(dirs.drop_first());
    }
}

proof fn lemma_codex_found(p: DiscoveryProbe)
    ensures
        codex_total(collected(all_offers(p))) <= DEFAULT_CODEX_PROJECT_DOC_MAX_BYTES,
{
    let dirs = p.dirs@;
    let n = project_len(dirs);
    let user = seq![
        whole(
            OverheadFileKind::ClaudeMd,
            p.user_claude,
            OverheadFileScope::User,
            SourceKind::ClaudeCode,
        ),
    ] + codex_user_offers(p) + opencode_user_offers(p);
    let up = least(p.claude_dirs as nat, dirs.len()) as int;
    let claude = claude_offers(dirs, up);
    let room = DEFAULT_CODEX_PROJECT_DOC_MAX_BYTES as nat;
    let codex = codex_offers(dirs, n, room);
    let agents = some_agents(dirs, n);
    lemma_user_offers(user);
    lemma_user_total(collected(user));
    lemma_claude_sources(dirs, up);
    lemma_codex_offers(user, claude);
    lemma_project_len(dirs);
    lemma_codex_budget(dirs, n, room);
    lemma_codex_offers(user + claude, codex);
    lemma_opencode_sources(dirs, n, agents);
    lemma_codex_offers(user + claude + codex, opencode_offers(dirs, n, agents));
}

/// Bytes of the files of a project that Codex reads.
pub open spec fn codex_file_bytes(files: Seq<OverheadFile>) -> nat
    decreases files.len(),
{
    if files.len() == 0 {
        0
    } else {
        let f = files.last();
        codex_file_bytes(files.drop_last()) + if f.scope == OverheadFileScope::Project
            && f.applies_to@.contains(SourceKind::Codex) {
            f.content_bytes as nat
        } else {
            0nat
        }
    }
}

proof fn lemma_codex_files(files: Seq<OverheadFile>, found: Seq<FoundView>)
    requires
        files.len() == found.len(),
        forall|i: int| 0 <= i < files.len() ==> is_found(#[trigger] files[i], found[i]),
    ensures
        codex_file_bytes(files) == codex_total(found),
    decreases files.len(),
{
    if files.len() > 0 {
        let d = files.drop_last();
        let e = found.drop_last();
        assert forall|i: int| 0 <= i < d.len() implies is_found(#[trigger] d[i], e[i]) by {
            assert(is_found(files[i], found[i]));
        }
        lemma_codex_files(d, e);
        assert(is_found(files[files.len() - 1], found[files.len() - 1]));
    }
}

/// The files of a project that are found for Codex hold no more bytes than Codex
/// takes from a project.
pub proof fn lemma_codex_total(p: DiscoveryProbe, files: Seq<OverheadFile>)
    requires
        files.len() == collected(all_offers(p)).len(),
        forall|i: int|
            0 <= i < files.len() ==> is_found(#[trigger] files[i], collected(all_offers(p))[i]),
    ensures
        codex_file_bytes(files) <= DEFAULT_CODEX_PROJECT_DOC_MAX_BYTES,
{
    lemma_codex_files(files, collected(all_offers(p)));
    lemma_codex_found(p);
}

/// A file with what it says.
#[derive(Debug, Clone, PartialEq)]
pub struct ParsedOverheadFile {
    pub file: OverheadFile,
    pub parsed: ParsedClaudeMd,
}

/// The leading bytes of a file that go into the prompt, as text.
pub open spec fn prompt_text(bytes: Seq<u8>, n: nat) -> Seq<char> {
    outside::lossy_text(bytes.take(least(n, bytes.len()) as int))
}

/// Reads what goes into the prompt of a file that does so in part.
pub fn parse_overhead_bytes(path: &str, bytes: &[u8], content_bytes: usize) -> (r: ParsedClaudeMd)
    ensures
        r@ == claude_md::parsed(
            path@,
            prompt_text(bytes@, content_bytes as nat),
            claude_md::lines_of(
                claude_md::unify(prompt_text(bytes@, content_bytes as nat)),
            ).map_values(|l: Seq<char>| claude_md::marks_of_line(l)),
        ),
{
    let n: usize = if content_bytes < bytes.len() {
        content_bytes
    } else {
        bytes.len()
    };
    let head = vstd::slice::slice_subrange(bytes, 0, n);
    assert(head@ =~= bytes@.take(n as int));
    let s = outside::from_utf8_lossy(head);
    claude_md::parse_claude_md(path, s.as_str())
}

/// The turns that a file counts toward.
pub open spec fn turns_for(turns: Seq<TurnRecord>, applies_to: Seq<SourceKind>) -> Seq<usize> {
    streaks::pick(
        order::positions_up_to(turns.len()),
        |i: usize| applies_to.contains(turns[i as int].source),
    )
}

/// What the files cost.
#[derive(Debug, Clone, PartialEq)]
pub struct OverheadAttribution {
    pub per_file: Vec<ClaudeMdAttributionResult>,
    /// Number of turns that pay for at least one file.
    pub total_riding_turns: u64,
}

/// Whether the turn pays for one of the files.
pub open spec fn is_rider(
    files: Seq<ParsedOverheadFile>,
    turns: Seq<TurnRecord>,
    priced: Seq<bool>,
    m: usize,
) -> bool {
    exists|i: int|
        0 <= i < files.len() && rides_in(#[trigger] files[i], turns, priced, m)
}

/// Whether the turn pays for the file.
pub open spec fn rides_in(
    f: ParsedOverheadFile,
    turns: Seq<TurnRecord>,
    priced: Seq<bool>,
    m: usize,
) -> bool {
    &&& f.parsed.tokens > 0
    &&& f.file.applies_to@.contains(turns[m as int].source)
    &&& md_cost::rides(turns, priced, f.parsed.tokens as nat, m)
}

/// How many of the first `n` turns pay for one of the files.
pub open spec fn riders(
    files: Seq<ParsedOverheadFile>,
    turns: Seq<TurnRecord>,
    priced: Seq<bool>,
    n: nat,
) -> nat
    decreases n,
{
    if n == 0 {
        0
    } else {
        let before = riders(files, turns, priced, (n - 1) as nat);
        if is_rider(files, turns, priced, (n - 1) as usize) {
            before + 1
        } else {
            before
        }
    }
}

fn check_rider(
    files: &Vec<ParsedOverheadFile>,
    turns: &[TurnRecord],
    priced: &[bool],
    m: usize,
) -> (r: bool)
    requires
        m < turns@.len(),
        priced@.len() == turns@.len(),
    ensures
        r == is_rider(files@, turns@, priced@, m),
{
    let mut i: usize = 0;
    while i < files.len()
        invariant
            i <= files@.len(),
            m < turns@.len(),
            priced@.len() == turns@.len(),
            forall|k: int| 0 <= k < i ==> !rides_in(#[trigger] files@[k], turns@, priced@, m),
        decreases files@.len() - i,
    {
        let f = &files[i];
        if f.parsed.tokens > 0 && priced[m] && turns[m].usage.cache_read >= f.parsed.tokens
            && holds_source(&f.file.applies_to, turns[m].source) {
            assert(rides_in(files@[i as int], turns@, priced@, m));
            return true;
        }
        i = i + 1;
    }
    false
}

fn count_riders(files: &Vec<ParsedOverheadFile>, turns: &[TurnRecord], priced: &[bool]) -> (r: u64)
    requires
        priced@.len() == turns@.len(),
    ensures
        r == riders(files@, turns@, priced@, turns@.len()),
{
    let mut n: u64 = 0;
    let mut m: usize = 0;
    while m < turns.len()
        invariant
            m <= turns@.len(),
            n <= m,
            priced@.len() == turns@.len(),
            n == riders(files@, turns@, priced@, m as nat),
        decreases turns@.len() - m,
    {
        if check_rider(files, turns, priced, m) {
            n = n + 1;
        }
        m = m + 1;
    }
    n
}

/// Every turn that pays for the larger of two files of a harness pays for the
/// smaller one, so that both together have the turns of the smaller one.
pub proof fn lemma_smaller_covers(
    small: ParsedOverheadFile,
    large: ParsedOverheadFile,
    turns: Seq<TurnRecord>,
    priced: Seq<bool>,
    n: nat,
)
    requires
        0 < small.parsed.tokens <= large.parsed.tokens,
        forall|s: SourceKind| #[trigger]
            large.file.applies_to@.contains(s) ==> small.file.applies_to@.contains(s),
    ensures
        riders(seq![small, large], turns, priced, n) == riders(seq![small], turns, priced, n),
    decreases n,
{
    if n > 0 {
        lemma_smaller_covers(small, large, turns, priced, (n - 1) as nat);
        let m = (n - 1) as usize;
        let both = seq![small, large];
        assert(both[0] == small && seq![small][0] == small);
        if is_rider(both, turns, priced, m) {
            let i = choose|i: int|
                0 <= i < both.len() && rides_in(#[trigger] both[i], turns, priced, m);
            assert(rides_in(seq![small][0], turns, priced, m));
        }
    }
}

/// A turn counts once, in however many files it rides: one more file adds no
/// more turns than ride in that file, and takes none away.
pub proof fn lemma_riders(
    files: Seq<ParsedOverheadFile>,
    f: ParsedOverheadFile,
    turns: Seq<TurnRecord>,
    priced: Seq<bool>,
    n: nat,
)
    ensures
        riders(files, turns, priced, n) <= riders(files.push(f), turns, priced, n),
        riders(files.push(f), turns, priced, n) <= riders(files, turns, priced, n) + riders(
            seq![f],
            turns,
            priced,
            n,
        ),
        riders(seq![f], turns, priced, n) <= riders(files.push(f), turns, priced, n) <= n,
    decreases n,
{
    if n > 0 {
        lemma_riders(files, f, turns, priced, (n - 1) as nat);
        let m = (n - 1) as usize;
        let more = files.push(f);
        if is_rider(files, turns, priced, m) {
            let i = choose|i: int|
                0 <= i < files.len() && rides_in(#[trigger] files[i], turns, priced, m);
            assert(more[i] == files[i]);
        }
        if is_rider(seq![f], turns, priced, m) {
            assert(seq![f][0] == f);
            assert(more[files.len() as int] == f);
        }
        if is_rider(more, turns, priced, m) {
            let i = choose|i: int|
                0 <= i < more.len() && rides_in(#[trigger] more[i], turns, priced, m);
            if i < files.len() {
                assert(more[i] == files[i]);
            } else {
                assert(seq![f][0] == f);
            }
        }
    }
}

fn find_turns_for(turns: &[TurnRecord], applies_to: &Vec<SourceKind>) -> (r: Vec<usize>)
    ensures
        r@ == turns_for(turns@, applies_to@),
        attempts::inside(r@, turns@.len()),
{
    let ghost all = order::positions_up_to(turns@.len());
    let ghost p = |i: usize| applies_to@.contains(turns@[i as int].source);
    let mut out: Vec<usize> = Vec::new();
    let mut i: usize = 0;
    assert(all.take(0) =~= Seq::<usize>::empty());
    while i < turns.len()
        invariant
            i <= turns@.len(),
            all == order::positions_up_to(turns@.len()),
            p == (|i: usize| applies_to@.contains(turns@[i as int].source)),
            out@ == streaks::pick(all.take(i as int), p),
            attempts::inside(out@, turns@.len()),
        decreases turns@.len() - i,
    {
        assert(all.take(i + 1).drop_last() =~= all.take(i as int));
        assert(all.take(i + 1).last() == i);
        if holds_source(applies_to, turns[i].source) {
            out.push(i);
        }
        i = i + 1;
    }
    assert(all.take(i as int) =~= all);
    out
}

/// What the files cost the turns of the harnesses that read them. `priced` says
/// for each turn whether its model has a price, and `charged` whether that for
/// cached input is more than nothing.
pub fn attribute_overhead(
    files: &Vec<ParsedOverheadFile>,
    turns: &[TurnRecord],
    priced: &[bool],
    charged: &[bool],
) -> (r: OverheadAttribution)
    requires
        priced@.len() == turns@.len(),
        charged@.len() == turns@.len(),
    ensures
        r.per_file@.len() == files@.len(),
        forall|i: int|
            0 <= i < files@.len() ==> md_cost::is_attribution(
                #[trigger] r.per_file@[i],
                seq![files@[i].parsed],
                turns@,
                turns_for(turns@, files@[i].file.applies_to@),
                priced@,
                charged@,
            ),
        r.total_riding_turns == riders(files@, turns@, priced@, turns@.len()),
{
    let mut per_file: Vec<ClaudeMdAttributionResult> = Vec::new();
    let mut i: usize = 0;
    while i < files.len()
        invariant
            i <= files@.len(),
            priced@.len() == turns@.len(),
            charged@.len() == turns@.len(),
            per_file@.len() == i,
            forall|k: int|
                0 <= k < i ==> md_cost::is_attribution(
                    #[trigger] per_file@[k],
                    seq![files@[k].parsed],
                    turns@,
                    turns_for(turns@, files@[k].file.applies_to@),
                    priced@,
                    charged@,
                ),
        decreases files@.len() - i,
    {
        let at = find_turns_for(turns, &files[i].file.applies_to);
        let one = std::slice::from_ref(&files[i].parsed);
        assert(one@ =~= seq![files@[i as int].parsed]);
        let cost = md_cost::attribute_claude_md_refs(one, turns, &at, priced, charged);
        per_file.push(cost);
        i = i + 1;
    }
    OverheadAttribution { per_file, total_riding_turns: count_riders(files, turns, priced) }
}

/// The names of the harnesses.
pub open spec fn source_names(s: Seq<SourceKind>, names: SourceNames) -> Seq<Seq<char>> {
    s.map_values(|k: SourceKind| names.of(k))
}

/// The harnesses in order, with commas between them.
pub fn describe_applies_to(applies_to: &[SourceKind], names: &SourceNames) -> (r: String)
    ensures
        r@ == text::joined(
            order::stable_sort(source_names(applies_to@, *names), order::text_order()),
            ", "@,
        ),
{
    let mut listed: Vec<String> = Vec::new();
    let mut i: usize = 0;
    while i < applies_to.len()
        invariant
            i <= applies_to@.len(),
            listed@.len() == i,
            forall|k: int| 0 <= k < i ==> (#[trigger] listed@[k])@ == names.of(applies_to@[k]),
        decreases applies_to@.len() - i,
    {
        listed.push(names.name(applies_to[i]).to_owned());
        i = i + 1;
    }
    assert(text::views(listed@) =~= source_names(applies_to@, *names));
    let sorted = order::sort_texts(listed);
    text::join(&sorted, ", ")
}

} // verus!
