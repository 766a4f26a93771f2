//! The files that go into a prompt at startup.

use crate::overhead;
use crate::overhead::{
    Candidate, DirProbe, DiscoveryProbe, FoundView, Offer, OverheadFileKind, OverheadFileScope,
    Probe,
};
use crate::records::SourceKind;
use vstd::prelude::*;

verus! {

/// Whether a file that is not blank stands at the path.
pub open spec fn holds_text(c: Candidate) -> bool {
    match c.probe {
        Probe::Read { bytes, identity } => bytes@.len() > 0 && !overhead::is_blank(bytes@),
        _ => false,
    }
}

/// Whether the file was found as one of the kind that the harness reads.
pub open spec fn is_read(
    f: FoundView,
    c: Candidate,
    kind: OverheadFileKind,
    source: SourceKind,
) -> bool {
    &&& c.probe is Read
    &&& f.identity == c.probe->Read_identity@
    &&& f.kind == kind
    &&& f.applies_to.contains(source)
    &&& 0 < f.content_bytes <= c.probe->Read_bytes@.len()
}

proof fn lemma_slot(found: Seq<FoundView>, o: Offer)
    ensures
        0 <= overhead::slot_of(found, o.file.probe->Read_identity@, o.kind) <= found.len(),
        overhead::slot_of(found, o.file.probe->Read_identity@, o.kind) < found.len() ==> ({
            let f = found[overhead::slot_of(found, o.file.probe->Read_identity@, o.kind)];
            f.identity == o.file.probe->Read_identity@ && f.kind == o.kind
        }),
    decreases found.len(),
{
    let id = o.file.probe->Read_identity@;
    if found.len() > 0 && !(found[0].identity == id && found[0].kind == o.kind) {
        lemma_slot(found.drop_first(), o);
    }
}

/// Whether the entry stands for what the offer takes.
pub open spec fn takes_in(f: FoundView, o: Offer) -> bool {
    &&& f.identity == o.file.probe->Read_identity@
    &&& f.kind == o.kind
    &&& f.applies_to.contains(o.source)
    &&& 0 < f.content_bytes <= overhead::taken(o)
}

proof fn lemma_positive(offers: Seq<Offer>)
    ensures
        forall|j: int|
            0 <= j < overhead::collected(offers).len() ==> (#[trigger] overhead::collected(
                offers,
            )[j]).content_bytes > 0,
    decreases offers.len(),
{
    if offers.len() > 0 {
        lemma_positive(offers.drop_last());
        lemma_slot(overhead::collected(offers.drop_last()), offers.last());
    }
}

/// What is offered, and is more than blanks, is found.
pub proof fn lemma_offers_are_found(offers: Seq<Offer>, k: int) -> (j: int)
    requires
        0 <= k < offers.len(),
        overhead::counts(offers[k]),
    ensures
        0 <= j < overhead::collected(offers).len(),
        takes_in(overhead::collected(offers)[j], offers[k]),
    decreases offers.len(),
{
    let d = offers.drop_last();
    let before = overhead::collected(d);
    let all = overhead::collected(offers);
    let o = offers.last();
    lemma_slot(before, o);
    lemma_positive(d);
    lemma_positive(offers);
    let at = overhead::slot_of(before, o.file.probe->Read_identity@, o.kind);
    if k < d.len() {
        let j = lemma_offers_are_found(d, k);
        if overhead::counts(o) && at < before.len() && at == j {
            let old_sources = before[at].applies_to;
            let i = choose|i: int|
                0 <= i < old_sources.len() && old_sources[i] == offers[k].source;
            assert(all[j].applies_to[i] == offers[k].source);
        } else {
            assert(all[j] == before[j]);
        }
        j
    } else if at < before.len() {
        let sources = before[at].applies_to;
        if sources.contains(o.source) {
            assert(all[at].applies_to.contains(o.source));
        } else {
            assert(all[at].applies_to[sources.len() as int] == o.source);
        }
        at
    } else {
        assert(all[before.len() as int].applies_to[0] == o.source);
        before.len() as int
    }
}

/// Whether the path and the scope of the entry are those of the offer.
pub open spec fn is_from(f: FoundView, o: Offer) -> bool {
    &&& overhead::counts(o)
    &&& f.identity == o.file.probe->Read_identity@
    &&& f.kind == o.kind
    &&& f.path == o.file.path@
    &&& f.scope == o.scope
}

/// What is found was offered: under its path and its scope, and by every
/// harness that it is said to be read by.
pub proof fn lemma_found_was_offered(offers: Seq<Offer>, j: int, source: SourceKind) -> (r: (
    int,
    int,
))
    requires
        0 <= j < overhead::collected(offers).len(),
        overhead::collected(offers)[j].applies_to.contains(source),
    ensures
        0 <= r.0 < offers.len(),
        is_from(overhead::collected(offers)[j], offers[r.0]),
        0 <= r.1 < offers.len(),
        takes_in(overhead::collected(offers)[j], offers[r.1]),
        offers[r.1].source == source,
        overhead::counts(offers[r.1]),
    decreases offers.len(),
{
    let d = offers.drop_last();
    let before = overhead::collected(d);
    let all = overhead::collected(offers);
    let o = offers.last();
    let last = offers.len() - 1;
    lemma_slot(before, o);
    lemma_positive(offers);
    let at = overhead::slot_of(before, o.file.probe->Read_identity@, o.kind);
    if j < before.len() {
        if overhead::counts(o) && at == j {
            lemma_some_source(d, j);
            if before[j].applies_to.contains(source) {
                let r = lemma_found_was_offered(d, j, source);
                assert(d[r.0] == offers[r.0] && d[r.1] == offers[r.1]);
                r
            } else {
                let r = lemma_found_was_offered(d, j, before[j].applies_to[0]);
                assert(d[r.0] == offers[r.0]);
                let i = choose|i: int|
                    0 <= i < all[j].applies_to.len() && all[j].applies_to[i] == source;
                if i < before[j].applies_to.len() {
                    assert(before[j].applies_to[i] == source);
                }
                assert(o.source == source);
                (r.0, last)
            }
        } else {
            assert(all[j] == before[j]);
            let r = lemma_found_was_offered(d, j, source);
            assert(d[r.0] == offers[r.0] && d[r.1] == offers[r.1]);
            r
        }
    } else {
        let i = choose|i: int|
            0 <= i < all[j].applies_to.len() && all[j].applies_to[i] == source;
        assert(all[j].applies_to.len() == 1);
        (last, last)
    }
}

proof fn lemma_some_source(offers: Seq<Offer>, j: int)
    requires
        0 <= j < overhead::collected(offers).len(),
    ensures
        overhead::collected(offers)[j].applies_to.len() > 0,
        overhead::collected(offers)[j].applies_to.contains(
            overhead::collected(offers)[j].applies_to[0],
        ),
    decreases offers.len(),
{
    let d = offers.drop_last();
    let before = overhead::collected(d);
    lemma_slot(before, offers.last());
    if j < before.len() {
        lemma_some_source(d, j);
    }
    assert(overhead::collected(offers)[j].applies_to[0]
        == overhead::collected(offers)[j].applies_to[0]);
}

proof fn lemma_whole_counts(
    kind: OverheadFileKind,
    c: Candidate,
    scope: OverheadFileScope,
    source: SourceKind,
)
    requires
        holds_text(c),
    ensures
        overhead::counts(overhead::whole(kind, c, scope, source)),
        overhead::taken(overhead::whole(kind, c, scope, source)) == c.probe->Read_bytes@.len(),
{
    let b = c.probe->Read_bytes@;
    assert(b.take(b.len() as int) =~= b);
}

/// The memory file of the user is read by the first harness.
pub proof fn lemma_user_memory(p: DiscoveryProbe) -> (j: int)
    requires
        holds_text(p.user_claude),
    ensures
        0 <= j < overhead::collected(overhead::all_offers(p)).len(),
        is_read(
            overhead::collected(overhead::all_offers(p))[j],
            p.user_claude,
            OverheadFileKind::ClaudeMd,
            SourceKind::ClaudeCode,
        ),
{
    lemma_whole_counts(
        OverheadFileKind::ClaudeMd,
        p.user_claude,
        OverheadFileScope::User,
        SourceKind::ClaudeCode,
    );
    lemma_offers_are_found(overhead::all_offers(p), 0)
}

/// Codex reads the override in its home, and the file that it overrides where
/// the override has nothing in it.
pub proof fn lemma_codex_home(p: DiscoveryProbe) -> (j: int)
    requires
        holds_text(p.codex_override) || (!overhead::is_filled(p.codex_override) && holds_text(
            p.codex_agents,
        )),
    ensures
        0 <= j < overhead::collected(overhead::all_offers(p)).len(),
        is_read(
            overhead::collected(overhead::all_offers(p))[j],
            if holds_text(p.codex_override) {
                p.codex_override
            } else {
                p.codex_agents
            },
            OverheadFileKind::AgentsMd,
            SourceKind::Codex,
        ),
{
    let c = if holds_text(p.codex_override) {
        p.codex_override
    } else {
        p.codex_agents
    };
    lemma_whole_counts(
        OverheadFileKind::AgentsMd,
        c,
        OverheadFileScope::User,
        SourceKind::Codex,
    );
    let offers = overhead::all_offers(p);
    assert(offers[1] == overhead::whole(
        OverheadFileKind::AgentsMd,
        c,
        OverheadFileScope::User,
        SourceKind::Codex,
    ));
    lemma_offers_are_found(offers, 1)
}

/// Opencode reads the file in its configuration, and the memory file of the
/// user where there is none.
pub proof fn lemma_opencode_home(p: DiscoveryProbe) -> (j: int)
    requires
        holds_text(p.opencode_agents) || (p.opencode_agents.probe is Missing && holds_text(
            p.user_claude,
        )),
    ensures
        0 <= j < overhead::collected(overhead::all_offers(p)).len(),
        is_read(
            overhead::collected(overhead::all_offers(p))[j],
            if p.opencode_agents.probe is Missing {
                p.user_claude
            } else {
                p.opencode_agents
            },
            if p.opencode_agents.probe is Missing {
                OverheadFileKind::ClaudeMd
            } else {
                OverheadFileKind::AgentsMd
            },
            SourceKind::Opencode,
        ),
{
    let (c, kind) = if p.opencode_agents.probe is Missing {
        (p.user_claude, OverheadFileKind::ClaudeMd)
    } else {
        (p.opencode_agents, OverheadFileKind::AgentsMd)
    };
    lemma_whole_counts(kind, c, OverheadFileScope::User, SourceKind::Opencode);
    let offers = overhead::all_offers(p);
    let k = 1 + overhead::codex_user_offers(p).len() as int;
    assert(overhead::opencode_user_offers(p)[0] == overhead::whole(
        kind,
        c,
        OverheadFileScope::User,
        SourceKind::Opencode,
    ));
    assert(offers[k] == overhead::opencode_user_offers(p)[0]);
    lemma_offers_are_found(offers, k)
}

/// Whether the project reaches up to directory `top`: the nearest one with a
/// `.git`, or else the directory itself.
pub open spec fn is_top(dirs: Seq<DirProbe>, top: int) -> bool {
    &&& 0 <= top < dirs.len()
    &&& dirs[top].has_git ==> forall|k: int| 0 <= k < top ==> !(#[trigger] dirs[k]).has_git
    &&& !dirs[top].has_git ==> top == 0 && forall|k: int|
        0 <= k < dirs.len() ==> !(#[trigger] dirs[k]).has_git
}

proof fn lemma_git_slot(dirs: Seq<DirProbe>, at: int)
    requires
        0 <= at <= dirs.len(),
        at < dirs.len() ==> dirs[at].has_git,
        forall|k: int| 0 <= k < at ==> !(#[trigger] dirs[k]).has_git,
    ensures
        overhead::git_slot(dirs) == at,
    decreases dirs.len(),
{
    if at > 0 {
        let d = dirs.drop_first();
        assert(!dirs[0].has_git);
        if at < dirs.len() {
            assert(d[at - 1] == dirs[at]);
        }
        assert forall|k: int| 0 <= k < at - 1 implies !(#[trigger] d[k]).has_git by {
            assert(d[k] == dirs[k + 1]);
        }
        lemma_git_slot(d, at - 1);
    }
}

/// The project reaches up to the nearest directory with a `.git`.
pub proof fn lemma_project_top(dirs: Seq<DirProbe>, top: int)
    requires
        is_top(dirs, top),
    ensures
        overhead::project_top(dirs) == top,
        overhead::project_len(dirs) == top + 1,
{
    if dirs[top].has_git {
        lemma_git_slot(dirs, top);
    } else {
        lemma_git_slot(dirs, dirs.len() as int);
    }
}

proof fn lemma_claude_offers(dirs: Seq<DirProbe>, n: int, i: int, which: int) -> (k: int)
    requires
        0 <= i < n <= dirs.len(),
        0 <= which < overhead::claude_dir_offers(dirs, i).len(),
    ensures
        0 <= k < overhead::claude_offers(dirs, n).len(),
        overhead::claude_offers(dirs, n)[k] == overhead::claude_dir_offers(dirs, i)[which],
    decreases n,
{
    if i == n - 1 {
        which
    } else {
        overhead::claude_dir_offers(dirs, n - 1).len() + lemma_claude_offers(
            dirs,
            n - 1,
            i,
            which,
        )
    }
}

/// The first harness reads the memory file of every directory that it looks at,
/// the personal one beside it, and at the top of the project also the one in
/// its own settings.
pub proof fn lemma_project_memory(p: DiscoveryProbe, top: int, i: int, c: Candidate) -> (j: int)
    requires
        is_top(p.dirs@, top),
        0 <= i < p.dirs@.len(),
        i < p.claude_dirs,
        holds_text(c),
        c == p.dirs@[i].claude || c == p.dirs@[i].claude_local || (c == p.dirs@[i].dot_claude && i
            == top),
    ensures
        0 <= j < overhead::collected(overhead::all_offers(p)).len(),
        is_read(
            overhead::collected(overhead::all_offers(p))[j],
            c,
            OverheadFileKind::ClaudeMd,
            SourceKind::ClaudeCode,
        ),
{
    let dirs = p.dirs@;
    lemma_project_top(dirs, top);
    let scope = if i <= top {
        OverheadFileScope::Project
    } else {
        OverheadFileScope::Ancestor
    };
    lemma_whole_counts(OverheadFileKind::ClaudeMd, c, scope, SourceKind::ClaudeCode);
    let own = overhead::claude_dir_offers(dirs, i);
    let which = if c == dirs[i].claude {
        0int
    } else if c == dirs[i].claude_local {
        own.len() - 1
    } else {
        1int
    };
    assert(own[which] == overhead::whole(
        OverheadFileKind::ClaudeMd,
        c,
        scope,
        SourceKind::ClaudeCode,
    ));
    let n = overhead::least(p.claude_dirs as nat, dirs.len()) as int;
    let k = lemma_claude_offers(dirs, n, i, which);
    let offers = overhead::all_offers(p);
    let at = 1 + overhead::codex_user_offers(p).len() + overhead::opencode_user_offers(p).len() + k;
    assert(offers[at as int] == own[which]);
    lemma_offers_are_found(offers, at as int)
}

/// The bytes of the file that Codex reads in a directory: of the override where
/// there is one.
pub open spec fn codex_size(d: DirProbe) -> int {
    let c = if d.agents_override.probe is Missing {
        d.agents
    } else {
        d.agents_override
    };
    match c.probe {
        Probe::Read { bytes, identity } => bytes@.len() as int,
        _ => 0,
    }
}

proof fn lemma_codex_room(dirs: Seq<DirProbe>, n: int, i: int, room: nat) -> (k: int)
    requires
        0 <= i < n <= dirs.len(),
        forall|k: int| i <= k < n ==> 0 <= #[trigger] codex_size(dirs[k]),
        dirs.subrange(i, n).fold_left(0int, |sum: int, d: DirProbe| sum + codex_size(d)) <= room,
        holds_text(overhead::codex_choice(dirs[i])),
    ensures
        0 <= k < overhead::codex_offers(dirs, n, room).len(),
        overhead::codex_offers(dirs, n, room)[k].file == overhead::codex_choice(dirs[i]),
        overhead::codex_offers(dirs, n, room)[k].kind == OverheadFileKind::AgentsMd,
        overhead::codex_offers(dirs, n, room)[k].source == SourceKind::Codex,
        overhead::counts(overhead::codex_offers(dirs, n, room)[k]),
    decreases n,
{
    let f = |sum: int, d: DirProbe| sum + codex_size(d);
    let part = dirs.subrange(i, n);
    assert(part.drop_last() =~= dirs.subrange(i, n - 1));
    assert(part.last() == dirs[n - 1]);
    assert(part.fold_left(0int, f) == part.drop_last().fold_left(0int, f) + codex_size(
        dirs[n - 1],
    ));
    let o = overhead::codex_dir_offer(dirs[n - 1], room);
    assert(codex_size(dirs[n - 1]) >= 0);
    if i == n - 1 {
        assert(part.drop_last() =~= Seq::<DirProbe>::empty());
        assert(part.drop_last().fold_left(0int, f) == 0);
        let b = o.file.probe->Read_bytes@;
        assert(b.take(b.len() as int) =~= b);
        assert(overhead::counts(o));
        assert(overhead::codex_offers(dirs, n, room)[0] == o);
        0
    } else {
        lemma_sum_not_negative(dirs.subrange(i, n - 1));
        if overhead::counts(o) {
            assert(o.file.probe is Read);
            assert(overhead::taken(o) <= codex_size(dirs[n - 1]));
            let k = lemma_codex_room(dirs, n - 1, i, (room - overhead::taken(o)) as nat);
            k + 1
        } else {
            lemma_codex_room(dirs, n - 1, i, room)
        }
    }
}

proof fn lemma_sum_not_negative(dirs: Seq<DirProbe>)
    ensures
        dirs.fold_left(0int, |sum: int, d: DirProbe| sum + codex_size(d)) >= 0,
    decreases dirs.len(),
{
    if dirs.len() > 0 {
        lemma_sum_not_negative(dirs.drop_last());
    }
}

/// Codex reads a file in every directory of its project, the farthest first, as
/// long as they fit together into 32768 bytes.
pub proof fn lemma_codex_project(p: DiscoveryProbe, top: int, i: int) -> (j: int)
    requires
        is_top(p.dirs@, top),
        0 <= i <= top,
        p.dirs@.subrange(i, top + 1).fold_left(0int, |sum: int, d: DirProbe| sum + codex_size(d))
            <= 32768,
        holds_text(
            if p.dirs@[i].agents_override.probe is Missing {
                p.dirs@[i].agents
            } else {
                p.dirs@[i].agents_override
            },
        ),
    ensures
        0 <= j < overhead::collected(overhead::all_offers(p)).len(),
        is_read(
            overhead::collected(overhead::all_offers(p))[j],
            if p.dirs@[i].agents_override.probe is Missing {
                p.dirs@[i].agents
            } else {
                p.dirs@[i].agents_override
            },
            OverheadFileKind::AgentsMd,
            SourceKind::Codex,
        ),
{
    let dirs = p.dirs@;
    lemma_project_top(dirs, top);
    let room = overhead::DEFAULT_CODEX_PROJECT_DOC_MAX_BYTES as nat;
    let k = lemma_codex_room(dirs, top + 1, i, room);
    let offers = overhead::all_offers(p);
    let before = 1 + overhead::codex_user_offers(p).len() + overhead::opencode_user_offers(p).len()
        + overhead::claude_offers(
        dirs,
        overhead::least(p.claude_dirs as nat, dirs.len()) as int,
    ).len();
    assert(offers[before + k] == overhead::codex_offers(dirs, top + 1, room)[k]);
    lemma_offers_are_found(offers, before + k)
}

proof fn lemma_opencode_offers(dirs: Seq<DirProbe>, n: int, agents: bool, i: int)
    requires
        0 <= i < n <= dirs.len(),
    ensures
        overhead::opencode_offers(dirs, n, agents).len() == n,
        overhead::opencode_offers(dirs, n, agents)[n - 1 - i] == overhead::whole(
            if agents {
                OverheadFileKind::AgentsMd
            } else {
                OverheadFileKind::ClaudeMd
            },
            if agents {
                dirs[i].agents
            } else {
                dirs[i].claude
            },
            OverheadFileScope::Project,
            SourceKind::Opencode,
        ),
    decreases n,
{
    if i < n - 1 {
        lemma_opencode_offers(dirs, n - 1, agents, i);
    } else if n > 1 {
        lemma_opencode_offers(dirs, n - 1, agents, 0);
    } else {
        assert(overhead::opencode_offers(dirs, 0, agents).len() == 0);
    }
}

/// Opencode reads the `AGENTS.md` of every directory of its project where any
/// of them has one, and else their memory files.
pub proof fn lemma_opencode_project(p: DiscoveryProbe, top: int, i: int, agents: bool) -> (j: int)
    requires
        is_top(p.dirs@, top),
        0 <= i <= top,
        agents <==> exists|k: int|
            0 <= k <= top && (#[trigger] p.dirs@[k].agents).probe !is Missing,
        agents ==> holds_text(p.dirs@[i].agents),
        !agents ==> holds_text(p.dirs@[i].claude),
    ensures
        0 <= j < overhead::collected(overhead::all_offers(p)).len(),
        is_read(
            overhead::collected(overhead::all_offers(p))[j],
            if agents {
                p.dirs@[i].agents
            } else {
                p.dirs@[i].claude
            },
            if agents {
                OverheadFileKind::AgentsMd
            } else {
                OverheadFileKind::ClaudeMd
            },
            SourceKind::Opencode,
        ),
{
    let dirs = p.dirs@;
    lemma_project_top(dirs, top);
    let n = top + 1;
    assert(overhead::some_agents(dirs, n) == agents) by {
        if agents {
            let k = choose|k: int|
                0 <= k <= top && (#[trigger] p.dirs@[k].agents).probe !is Missing;
            assert(overhead::is_file(dirs[k].agents));
        }
        if overhead::some_agents(dirs, n) {
            let k = choose|k: int| 0 <= k < n && overhead::is_file(#[trigger] dirs[k].agents);
            assert((p.dirs@[k].agents).probe !is Missing);
        }
    }
    lemma_opencode_offers(dirs, n, agents, i);
    let (c, kind) = if agents {
        (dirs[i].agents, OverheadFileKind::AgentsMd)
    } else {
        (dirs[i].claude, OverheadFileKind::ClaudeMd)
    };
    lemma_whole_counts(kind, c, OverheadFileScope::Project, SourceKind::Opencode);
    let offers = overhead::all_offers(p);
    let room = overhead::DEFAULT_CODEX_PROJECT_DOC_MAX_BYTES as nat;
    let before = 1 + overhead::codex_user_offers(p).len() + overhead::opencode_user_offers(p).len()
        + overhead::claude_offers(
        dirs,
        overhead::least(p.claude_dirs as nat, dirs.len()) as int,
    ).len() + overhead::codex_offers(dirs, n, room).len();
    let k = before + (n - 1 - i);
    assert(offers[k] == overhead::opencode_offers(dirs, n, agents)[n - 1 - i]);
    lemma_offers_are_found(offers, k)
}

/// What each harness offers is of its own kind and scope.
pub proof fn lemma_scopes(p: DiscoveryProbe, k: int)
    requires
        0 <= k < overhead::all_offers(p).len(),
    ensures
        ({
            let o = overhead::all_offers(p)[k];
            &&& o.source == SourceKind::ClaudeCode ==> o.kind == OverheadFileKind::ClaudeMd
            &&& o.source == SourceKind::Codex ==> o.kind == OverheadFileKind::AgentsMd
                && o.scope != OverheadFileScope::Ancestor
            &&& o.source == SourceKind::Opencode ==> o.scope != OverheadFileScope::Ancestor
            &&& o.source == SourceKind::ClaudeCode || o.source == SourceKind::Codex || o.source
                == SourceKind::Opencode
        }),
{
    let dirs = p.dirs@;
    let n = overhead::project_len(dirs);
    let m = overhead::least(p.claude_dirs as nat, dirs.len()) as int;
    let room = overhead::DEFAULT_CODEX_PROJECT_DOC_MAX_BYTES as nat;
    lemma_claude_kinds(dirs, m);
    lemma_codex_kinds(dirs, n, room);
    lemma_opencode_kinds(dirs, n, overhead::some_agents(dirs, n));
    let a = overhead::codex_user_offers(p);
    let b = overhead::opencode_user_offers(p);
    let c = overhead::claude_offers(dirs, m);
    let d = overhead::codex_offers(dirs, n, room);
    let e = overhead::opencode_offers(dirs, n, overhead::some_agents(dirs, n));
    let o = overhead::all_offers(p)[k];
    let x = 1 + a.len() + b.len();
    if k >= x + c.len() + d.len() {
        assert(o == e[k - x - c.len() - d.len()]);
    } else if k >= x + c.len() {
        assert(o == d[k - x - c.len()]);
    } else if k >= x {
        assert(o == c[k - x]);
    }
}

proof fn lemma_claude_kinds(dirs: Seq<DirProbe>, n: int)
    ensures
        forall|k: int|
            0 <= k < overhead::claude_offers(dirs, n).len() ==> ({
                let o = #[trigger] overhead::claude_offers(dirs, n)[k];
                o.source == SourceKind::ClaudeCode && o.kind == OverheadFileKind::ClaudeMd
            }),
    decreases n,
{
    if n > 0 {
        lemma_claude_kinds(dirs, n - 1);
        let own = overhead::claude_dir_offers(dirs, n - 1);
        let all = overhead::claude_offers(dirs, n);
        assert forall|k: int| 0 <= k < all.len() implies ({
            let o = #[trigger] all[k];
            o.source == SourceKind::ClaudeCode && o.kind == OverheadFileKind::ClaudeMd
        }) by {
            if k >= own.len() {
                assert(all[k] == overhead::claude_offers(dirs, n - 1)[k - own.len()]);
            }
        }
    }
}

proof fn lemma_codex_kinds(dirs: Seq<DirProbe>, n: int, room: nat)
    ensures
        forall|k: int|
            0 <= k < overhead::codex_offers(dirs, n, room).len() ==> ({
                let o = #[trigger] overhead::codex_offers(dirs, n, room)[k];
                o.source == SourceKind::Codex && o.kind == OverheadFileKind::AgentsMd && o.scope
                    == OverheadFileScope::Project
            }),
    decreases n,
{
    if n > 0 {
        let o = overhead::codex_dir_offer(dirs[n - 1], room);
        let left = if overhead::counts(o) {
            (room - overhead::taken(o)) as nat
        } else {
            room
        };
        lemma_codex_kinds(dirs, n - 1, left);
    }
}

proof fn lemma_opencode_kinds(dirs: Seq<DirProbe>, n: int, agents: bool)
    ensures
        forall|k: int|
            0 <= k < overhead::opencode_offers(dirs, n, agents).len() ==> ({
                let o = #[trigger] overhead::opencode_offers(dirs, n, agents)[k];
                o.source == SourceKind::Opencode && o.scope == OverheadFileScope::Project
            }),
    decreases n,
{
    if n > 0 {
        lemma_opencode_kinds(dirs, n - 1, agents);
    }
}

} // verus!
