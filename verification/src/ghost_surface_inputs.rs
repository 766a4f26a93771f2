//! What the search for files that are never called goes by, read off the turns.

use crate::cost::PriceIndex;
use crate::ghost_surface::{ClaudeSurface, CodexSurface, GhostSurfaceInputs, OpenCodeProject};
use crate::groups;
use crate::hotspots::BySession;
use crate::names::{BySource, NameSet};
use crate::records::{SourceKind, ToolCall, TurnRecord};
use crate::text;
use vstd::prelude::*;

verus! {

/// Whether a call bears the name: as its own, or as that of the skill it calls.
pub open spec fn call_bears(c: ToolCall, name: Seq<char>) -> bool {
    c.name@ == name || text::opt_view(c.skill_name) == Some(name)
}

/// Whether a turn bears the name: in one of its calls, or as the type of its
/// subagent.
pub open spec fn turn_bears(t: TurnRecord, name: Seq<char>) -> bool {
    ||| exists|j: int| 0 <= j < t.tool_calls@.len() && call_bears(#[trigger] t.tool_calls@[j], name)
    ||| t.subagent is Some && text::opt_view(t.subagent->Some_0.subagent_type) == Some(name)
}

/// Whether a turn of the source bears the name.
pub open spec fn source_bears(turns: Seq<TurnRecord>, source: SourceKind, name: Seq<char>) -> bool {
    exists|i: int|
        0 <= i < turns.len() && (#[trigger] turns[i]).source == source && turn_bears(turns[i], name)
}

/// Whether the source has a turn.
pub open spec fn has_turns(turns: Seq<TurnRecord>, source: SourceKind) -> bool {
    exists|i: int| 0 <= i < turns.len() && (#[trigger] turns[i]).source == source
}

fn add_turn_names(out: &mut NameSet, t: &TurnRecord)
    ensures
        forall|n: Seq<char>| #[trigger]
            final(out)@.contains(n) == (old(out)@.contains(n) || turn_bears(*t, n)),
{
    let ghost start = out@;
    let mut j: usize = 0;
    while j < t.tool_calls.len()
        invariant
            j <= t.tool_calls@.len(),
            forall|n: Seq<char>| #[trigger]
                out@.contains(n) == (start.contains(n) || exists|k: int|
                    0 <= k < j && call_bears(#[trigger] t.tool_calls@[k], n)),
        decreases t.tool_calls@.len() - j,
    {
        let ghost before = out@;
        let c = &t.tool_calls[j];
        out.insert(c.name.as_str());
        match &c.skill_name {
            Some(s) => {
                out.insert(s.as_str());
            },
            None => {},
        }
        assert forall|n: Seq<char>| #[trigger]
            out@.contains(n) == (start.contains(n) || exists|k: int|
                0 <= k < j + 1 && call_bears(#[trigger] t.tool_calls@[k], n)) by {
            assert(out@.contains(n) == (before.contains(n) || call_bears(
                t.tool_calls@[j as int],
                n,
            )));
            if before.contains(n) && !start.contains(n) {
                let k = choose|k: int| 0 <= k < j && call_bears(#[trigger] t.tool_calls@[k], n);
                assert(call_bears(t.tool_calls@[k], n));
            }
        }
        j = j + 1;
    }
    match &t.subagent {
        Some(s) => match &s.subagent_type {
            Some(k) => {
                out.insert(k.as_str());
            },
            None => {},
        },
        None => {},
    }
}

/// The names that the turns of a source bear.
fn names_of_source(turns: &[TurnRecord], source: SourceKind) -> (r: NameSet)
    ensures
        forall|n: Seq<char>| #[trigger] r@.contains(n) == source_bears(turns@, source, n),
{
    let mut out = NameSet::new();
    let mut i: usize = 0;
    while i < turns.len()
        invariant
            i <= turns@.len(),
            forall|n: Seq<char>| #[trigger]
                out@.contains(n) == source_bears(turns@.take(i as int), source, n),
        decreases turns@.len() - i,
    {
        let ghost before = out@;
        let t = &turns[i];
        if t.source == source {
            add_turn_names(&mut out, t);
        }
        assert forall|n: Seq<char>| #[trigger]
            out@.contains(n) == source_bears(turns@.take(i + 1), source, n) by {
            let p = turns@.take(i as int);
            let q = turns@.take(i + 1);
            assert(before.contains(n) == source_bears(p, source, n));
            if source_bears(p, source, n) {
                let k = choose|k: int|
                    0 <= k < p.len() && (#[trigger] p[k]).source == source && turn_bears(p[k], n);
                assert(q[k] == p[k]);
            }
            if source_bears(q, source, n) {
                let k = choose|k: int|
                    0 <= k < q.len() && (#[trigger] q[k]).source == source && turn_bears(q[k], n);
                if k < i {
                    assert(p[k] == q[k]);
                }
            }
            assert(q[i as int] == *t);
        }
        i = i + 1;
    }
    assert(turns@.take(i as int) =~= turns@);
    out
}

/// The names that the turns of each source bear. A source without turns has no
/// entry.
pub fn build_observed_names_by_source(turns: &[TurnRecord]) -> (r: BySource<NameSet>)
    ensures
        forall|s: SourceKind|
            match #[trigger] r.at(s) {
                Some(names) => has_turns(turns@, s) && forall|n: Seq<char>| #[trigger]
                    names@.contains(n) == source_bears(turns@, s, n),
                None => !has_turns(turns@, s),
            },
{
    let mut out: BySource<NameSet> = BySource::new();
    let mut i: usize = 0;
    while i < turns.len()
        invariant
            i <= turns@.len(),
            forall|s: SourceKind|
                match #[trigger] out.at(s) {
                    Some(names) => has_turns(turns@.take(i as int), s) && forall|n: Seq<char>|
                     #[trigger] names@.contains(n) == source_bears(turns@, s, n),
                    None => !has_turns(turns@.take(i as int), s),
                },
        decreases turns@.len() - i,
    {
        let source = turns[i].source;
        let known = match out.get(&source) {
            Some(_) => true,
            None => false,
        };
        proof {
            lemma_has_turns(turns@, i as int);
        }
        if !known {
            let names = names_of_source(turns, source);
            out.set(source, names);
        }
        i = i + 1;
    }
    assert(turns@.take(i as int) =~= turns@);
    out
}

proof fn lemma_has_turns(turns: Seq<TurnRecord>, i: int)
    requires
        0 <= i < turns.len(),
    ensures
        forall|s: SourceKind| #[trigger]
            has_turns(turns.take(i + 1), s) == (has_turns(turns.take(i), s) || s
                == turns[i].source),
{
    let p = turns.take(i);
    let q = turns.take(i + 1);
    assert forall|s: SourceKind| #[trigger]
        has_turns(q, s) == (has_turns(p, s) || s == turns[i].source) by {
        if has_turns(p, s) {
            let k = choose|k: int| 0 <= k < p.len() && (#[trigger] p[k]).source == s;
            assert(q[k] == p[k]);
        }
        if has_turns(q, s) {
            let k = choose|k: int| 0 <= k < q.len() && (#[trigger] q[k]).source == s;
            if k < i {
                assert(p[k] == q[k]);
            }
        }
        assert(q[i] == turns[i]);
    }
}

/// The sessions that the turns of a source belong to.
pub open spec fn source_sessions(turns: Seq<TurnRecord>, source: SourceKind) -> Set<Seq<char>>
    decreases turns.len(),
{
    if turns.len() == 0 {
        Set::empty()
    } else {
        let rest = source_sessions(turns.drop_last(), source);
        if turns.last().source == source {
            rest.insert(turns.last().session_id@)
        } else {
            rest
        }
    }
}

fn count_sessions(turns: &[TurnRecord], source: SourceKind) -> (r: u64)
    ensures
        r == source_sessions(turns@, source).len(),
{
    let mut seen = NameSet::new();
    let mut i: usize = 0;
    assert(turns@.take(0) =~= Seq::<TurnRecord>::empty());
    while i < turns.len()
        invariant
            i <= turns@.len(),
            seen@ == source_sessions(turns@.take(i as int), source),
        decreases turns@.len() - i,
    {
        assert(turns@.take(i + 1).drop_last() =~= turns@.take(i as int));
        if turns[i].source == source {
            seen.insert(turns[i].session_id.as_str());
        }
        i = i + 1;
    }
    assert(turns@.take(i as int) =~= turns@);
    seen.len() as u64
}

/// Number of sessions of each source. A source without turns has no entry.
pub fn build_session_count_by_source(turns: &[TurnRecord]) -> (r: BySource<u64>)
    ensures
        forall|s: SourceKind|
            match #[trigger] r.at(s) {
                Some(n) => has_turns(turns@, s) && n == source_sessions(turns@, s).len(),
                None => !has_turns(turns@, s),
            },
{
    let mut out: BySource<u64> = BySource::new();
    let mut i: usize = 0;
    while i < turns.len()
        invariant
            i <= turns@.len(),
            forall|s: SourceKind|
                match #[trigger] out.at(s) {
                    Some(n) => has_turns(turns@.take(i as int), s) && n == source_sessions(
                        turns@,
                        s,
                    ).len(),
                    None => !has_turns(turns@.take(i as int), s),
                },
        decreases turns@.len() - i,
    {
        let source = turns[i].source;
        let known = match out.get(&source) {
            Some(_) => true,
            None => false,
        };
        proof {
            lemma_has_turns(turns@, i as int);
        }
        if !known {
            let n = count_sessions(turns, source);
            out.set(source, n);
        }
        i = i + 1;
    }
    assert(turns@.take(i as int) =~= turns@);
    out
}

/// A source has a session if and only if it has a turn, and its sessions are
/// those of its turns.
pub proof fn lemma_source_sessions(turns: Seq<TurnRecord>, source: SourceKind)
    ensures
        source_sessions(turns, source).finite(),
        forall|id: Seq<char>| #[trigger]
            source_sessions(turns, source).contains(id) <==> exists|i: int|
                0 <= i < turns.len() && (#[trigger] turns[i]).source == source
                    && turns[i].session_id@ == id,
        has_turns(turns, source) <==> source_sessions(turns, source).len() > 0,
    decreases turns.len(),
{
    let all = source_sessions(turns, source);
    if turns.len() > 0 {
        let d = turns.drop_last();
        lemma_source_sessions(d, source);
        let rest = source_sessions(d, source);
        assert forall|id: Seq<char>| #[trigger]
            all.contains(id) <==> exists|i: int|
                0 <= i < turns.len() && (#[trigger] turns[i]).source == source
                    && turns[i].session_id@ == id by {
            if rest.contains(id) {
                let i = choose|i: int|
                    0 <= i < d.len() && (#[trigger] d[i]).source == source && d[i].session_id@
                        == id;
                assert(turns[i] == d[i]);
            }
            if exists|i: int|
                0 <= i < turns.len() && (#[trigger] turns[i]).source == source
                    && turns[i].session_id@ == id {
                let i = choose|i: int|
                    0 <= i < turns.len() && (#[trigger] turns[i]).source == source
                        && turns[i].session_id@ == id;
                if i < d.len() {
                    assert(d[i] == turns[i]);
                }
            }
            assert(turns[turns.len() - 1] == turns.last());
        }
        if has_turns(turns, source) {
            let i = choose|i: int| 0 <= i < turns.len() && (#[trigger] turns[i]).source == source;
            assert(all.contains(turns[i].session_id@));
            if all.len() == 0 {
                assert(all =~= Set::<Seq<char>>::empty());
            }
        } else {
            assert(all =~= Set::<Seq<char>>::empty()) by {
                assert forall|id: Seq<char>| !all.contains(id) by {}
            }
        }
    }
}

/// The model of each turn.
pub open spec fn model_keys(turns: Seq<TurnRecord>) -> Seq<Seq<char>> {
    turns.map_values(|t: TurnRecord| t.model@)
}

/// Number of turns of the model that is seen as number `g`.
pub open spec fn model_count(turns: Seq<TurnRecord>, g: int) -> nat {
    groups::groups_of(model_keys(turns))[g].1.len()
}

/// Whether the model that is seen as number `g` has a price and is used more
/// often than any other with one, and, among those used as often, is seen
/// first.
pub open spec fn is_favourite(
    turns: Seq<TurnRecord>,
    prices: Map<Seq<char>, usize>,
    g: int,
) -> bool {
    let all = groups::first_seen(model_keys(turns));
    &&& 0 <= g < all.len()
    &&& prices.contains_key(all[g])
    &&& forall|h: int|
        0 <= h < all.len() && prices.contains_key(#[trigger] all[h]) ==> model_count(turns, h)
            <= model_count(turns, g) && (h < g ==> model_count(turns, h) < model_count(turns, g))
}

/// The model whose price stands for all: the one with a price that most turns
/// ran on.
pub fn pick_representative_model(
    turns: &[TurnRecord],
    prices: &PriceIndex,
) -> (r: Option<String>)
    ensures
        match r {
            Some(m) => exists|g: int| #[trigger]
                is_favourite(turns@, prices@, g) && m@ == groups::first_seen(
                    model_keys(turns@),
                )[g],
            None => forall|i: int|
                0 <= i < turns@.len() ==> !prices@.contains_key((#[trigger] turns@[i]).model@),
        },
{
    let ghost names = model_keys(turns@);
    let ghost all = groups::first_seen(names);
    let mut keys: Vec<String> = Vec::new();
    let mut i: usize = 0;
    while i < turns.len()
        invariant
            i <= turns@.len(),
            keys@.len() == i,
            forall|k: int| 0 <= k < i ==> (#[trigger] keys@[k])@ == turns@[k].model@,
        decreases turns@.len() - i,
    {
        keys.push(turns[i].model.clone());
        i = i + 1;
    }
    assert(text::views(keys@) =~= names);
    let found = groups::group_by_key(&keys);
    let ghost gs = groups::groups_of(names);
    assert(groups::group_views(found@).len() == found@.len());
    let mut best: Option<usize> = None;
    let mut g: usize = 0;
    while g < found.len()
        invariant
            g <= found@.len(),
            names == model_keys(turns@),
            all == groups::first_seen(names),
            gs == groups::groups_of(names),
            gs == groups::group_views(found@),
            gs.len() == found@.len(),
            match best {
                Some(b) => {
                    &&& b < g
                    &&& prices@.contains_key(all[b as int])
                    &&& forall|h: int|
                        0 <= h < g && prices@.contains_key(#[trigger] all[h]) ==> model_count(
                            turns@,
                            h,
                        ) <= model_count(turns@, b as int) && (h < b ==> model_count(turns@, h)
                            < model_count(turns@, b as int))
                },
                None => forall|h: int| 0 <= h < g ==> !prices@.contains_key(#[trigger] all[h]),
            },
        decreases found@.len() - g,
    {
        assert(gs[g as int] == groups::group_views(found@)[g as int]);
        assert(gs[g as int].0 == all[g as int]);
        if prices.contains_key(found[g].key.as_str()) {
            match best {
                Some(b) => {
                    assert(gs[b as int] == groups::group_views(found@)[b as int]);
                    if found[g].members.len() > found[b].members.len() {
                        best = Some(g);
                    }
                },
                None => {
                    best = Some(g);
                },
            }
        }
        g = g + 1;
    }
    match best {
        Some(b) => {
            assert(gs[b as int] == groups::group_views(found@)[b as int]);
            assert(is_favourite(turns@, prices@, b as int));
            Some(found[b].key.clone())
        },
        None => {
            proof {
                groups::lemma_first_seen(names);
                assert forall|i: int| 0 <= i < turns@.len() implies !prices@.contains_key(
                    (#[trigger] turns@[i]).model@,
                ) by {
                    assert(names[i] == turns@[i].model@);
                    assert(names.contains(names[i]));
                    assert(all.contains(names[i]));
                    let h = choose|h: int| 0 <= h < all.len() && all[h] == names[i];
                    assert(!prices@.contains_key(all[h]));
                }
            }
            None
        },
    }
}

/// At most one model stands for all.
pub proof fn lemma_one_favourite(
    turns: Seq<TurnRecord>,
    prices: Map<Seq<char>, usize>,
    g: int,
    h: int,
)
    requires
        is_favourite(turns, prices, g),
        is_favourite(turns, prices, h),
    ensures
        g == h,
{
    let all = groups::first_seen(model_keys(turns));
    assert(prices.contains_key(all[g]) && prices.contains_key(all[h]));
}

/// What the turns and the files say, put together. Text that holds nothing for
/// any source counts as not known.
pub fn build_ghost_surface_inputs(
    turns: &[TurnRecord],
    claude: ClaudeSurface,
    codex: CodexSurface,
    opencode: Vec<OpenCodeProject>,
    user_turn_text_by_session: Option<BySource<Vec<BySession<String>>>>,
) -> (r: GhostSurfaceInputs)
    ensures
        forall|s: SourceKind|
            match #[trigger] r.observed_names_by_source.at(s) {
                Some(names) => has_turns(turns@, s) && forall|n: Seq<char>| #[trigger]
                    names@.contains(n) == source_bears(turns@, s, n),
                None => !has_turns(turns@, s),
            },
        forall|s: SourceKind|
            match #[trigger] r.session_count_by_source.at(s) {
                Some(n) => has_turns(turns@, s) && n == source_sessions(turns@, s).len(),
                None => !has_turns(turns@, s),
            },
        r.claude == claude,
        r.codex == codex,
        r.opencode == opencode,
        r.user_turn_text_by_session == (match user_turn_text_by_session {
            Some(m) => if m.holds_nothing() {
                None
            } else {
                Some(m)
            },
            None => None,
        }),
{
    let kept = match user_turn_text_by_session {
        Some(m) => if m.is_empty() {
            None
        } else {
            Some(m)
        },
        None => None,
    };
    GhostSurfaceInputs {
        observed_names_by_source: build_observed_names_by_source(turns),
        session_count_by_source: build_session_count_by_source(turns),
        claude,
        codex,
        opencode,
        user_turn_text_by_session: kept,
    }
}

} // verus!
