//! What skills and system prompts cost the sessions of one harness.

use crate::attempts;
use crate::findings::{SkillPruningProtection, SkillRecallDup, SystemPromptTax};
use crate::groups;
use crate::records::{SourceKind, TurnRecord, UserTurnBlock, UserTurnRecord};
use crate::sessions;
use crate::streaks;
use crate::text;
use vstd::prelude::*;

verus! {

/// Whether the session at `members` was recorded from Opencode.
pub open spec fn is_opencode(turns: Seq<TurnRecord>, members: Seq<usize>) -> bool {
    members.len() > 0 && turns[members[0] as int].source == SourceKind::Opencode
}

fn check_opencode(turns: &[TurnRecord], members: &Vec<usize>) -> (r: bool)
    requires
        attempts::inside(members@, turns@.len()),
    ensures
        r == is_opencode(turns@, members@),
{
    members.len() > 0 && turns[members[0]].source == SourceKind::Opencode
}

/// The name of the skill that the call at `c` loads, if it loads one.
pub open spec fn skill_of(turns: Seq<TurnRecord>, c: (int, int)) -> Option<Seq<char>> {
    let call = turns[c.0].tool_calls@[c.1];
    if call.name@ == "skill"@ {
        text::opt_view(call.skill_name)
    } else {
        None
    }
}

/// The calls of the session that load a skill.
pub open spec fn skill_calls(turns: Seq<TurnRecord>, members: Seq<usize>) -> Seq<(int, int)> {
    streaks::pick(
        sessions::calls_of(turns, members),
        |c: (int, int)| skill_of(turns, c) is Some,
    )
}

/// The skills that the calls load.
pub open spec fn skill_names(turns: Seq<TurnRecord>, calls: Seq<(int, int)>) -> Seq<Seq<char>> {
    calls.map_values(|c: (int, int)| skill_of(turns, c)->Some_0)
}

/// The calls name turns and calls that are there.
pub open spec fn calls_inside(turns: Seq<TurnRecord>, calls: Seq<(int, int)>) -> bool {
    forall|i: int|
        0 <= i < calls.len() ==> 0 <= (#[trigger] calls[i]).0 < turns.len() && 0 <= calls[i].1
            < turns[calls[i].0].tool_calls@.len()
}

fn find_skill_calls(turns: &[TurnRecord], members: &Vec<usize>) -> (r: Vec<(usize, usize)>)
    requires
        attempts::inside(members@, turns@.len()),
    ensures
        sessions::call_views(r@) == skill_calls(turns@, members@),
        calls_inside(turns@, skill_calls(turns@, members@)),
        forall|i: int|
            0 <= i < r@.len() ==> skill_of(
                turns@,
                #[trigger] skill_calls(turns@, members@)[i],
            ) is Some,
{
    let calls = sessions::flatten_tool_calls(turns, members);
    let ghost all = sessions::calls_of(turns@, members@);
    let ghost p = |c: (int, int)| skill_of(turns@, c) is Some;
    proof {
        sessions::lemma_calls_inside(turns@, members@);
    }
    let mut out: Vec<(usize, usize)> = Vec::new();
    let mut i: usize = 0;
    assert(all.take(0) =~= Seq::<(int, int)>::empty());
    assert(sessions::call_views(out@) =~= Seq::<(int, int)>::empty());
    while i < calls.len()
        invariant
            i <= calls@.len(),
            all == sessions::call_views(calls@),
            calls_inside(turns@, all),
            p == (|c: (int, int)| skill_of(turns@, c) is Some),
            sessions::call_views(out@) == streaks::pick(all.take(i as int), p),
            calls_inside(turns@, sessions::call_views(out@)),
            forall|k: int|
                0 <= k < out@.len() ==> skill_of(
                    turns@,
                    #[trigger] sessions::call_views(out@)[k],
                ) is Some,
        decreases calls@.len() - i,
    {
        let (m, j) = calls[i];
        assert(all[i as int] == (m as int, j as int));
        assert(all.take(i + 1).drop_last() =~= all.take(i as int));
        assert(all.take(i + 1).last() == all[i as int]);
        let call = &turns[m].tool_calls[j];
        if text::same(call.name.as_str(), "skill") && call.skill_name.is_some() {
            let ghost before = sessions::call_views(out@);
            out.push((m, j));
            assert(sessions::call_views(out@) =~= before.push((m as int, j as int)));
        }
        i = i + 1;
    }
    assert(all.take(i as int) =~= all);
    out
}

/// The turns of the calls at the positions `at`.
pub open spec fn turns_of_calls(calls: Seq<(int, int)>, at: Seq<usize>) -> Seq<usize> {
    at.map_values(|p: usize| calls[p as int].0 as usize)
}

/// Whether the finding is the one for the skill `g.0`, which the calls at the
/// positions `g.1` load.
pub open spec fn is_dup(
    r: SkillRecallDup,
    session: Seq<char>,
    turns: Seq<TurnRecord>,
    calls: Seq<(int, int)>,
    g: (Seq<char>, Seq<usize>),
) -> bool {
    &&& r.session_id@ == session
    &&& r.skill_name@ == g.0
    &&& r.call_count == g.1.len()
    &&& r.first_turn_index == turns[calls[g.1[0] as int].0].turn_index
    &&& r.last_turn_index == turns[calls[g.1.last() as int].0].turn_index
    &&& r.cost_turns@ == streaks::distinct_turns(turns, turns_of_calls(calls, g.1))
}

/// The skills that are loaded more than once, with the positions of the calls.
pub open spec fn recalled(turns: Seq<TurnRecord>, members: Seq<usize>) -> Seq<
    (Seq<char>, Seq<usize>),
> {
    if is_opencode(turns, members) {
        streaks::pick(
            groups::groups_of(skill_names(turns, skill_calls(turns, members))),
            |g: (Seq<char>, Seq<usize>)| g.1.len() >= 2,
        )
    } else {
        Seq::empty()
    }
}

/// Finds the skills that are loaded more than once.
pub fn detect_skill_recall_dups(session_id: &str, turns: &[TurnRecord], members: &Vec<usize>) -> (r:
    Vec<SkillRecallDup>)
    requires
        attempts::inside(members@, turns@.len()),
    ensures
        r@.len() == recalled(turns@, members@).len(),
        forall|i: int|
            0 <= i < r@.len() ==> is_dup(
                #[trigger] r@[i],
                session_id@,
                turns@,
                skill_calls(turns@, members@),
                recalled(turns@, members@)[i],
            ),
{
    let mut out: Vec<SkillRecallDup> = Vec::new();
    if !check_opencode(turns, members) {
        return out;
    }
    let calls = find_skill_calls(turns, members);
    let ghost cv = skill_calls(turns@, members@);
    let mut names: Vec<String> = Vec::new();
    let mut i: usize = 0;
    while i < calls.len()
        invariant
            i <= calls@.len(),
            cv == sessions::call_views(calls@),
            calls_inside(turns@, cv),
            forall|k: int| 0 <= k < calls@.len() ==> skill_of(turns@, #[trigger] cv[k]) is Some,
            names@.len() == i,
            forall|k: int|
                0 <= k < i ==> Some((#[trigger] names@[k])@) == skill_of(turns@, cv[k]),
        decreases calls@.len() - i,
    {
        let (m, j) = calls[i];
        assert(cv[i as int] == (m as int, j as int));
        let name = match &turns[m].tool_calls[j].skill_name {
            Some(s) => s.clone(),
            None => String::new(),
        };
        names.push(name);
        i = i + 1;
    }
    let ghost keys = skill_names(turns@, cv);
    assert(text::views(names@) =~= keys);
    let found = groups::group_by_key(&names);
    let ghost all = groups::groups_of(keys);
    let ghost p = |g: (Seq<char>, Seq<usize>)| g.1.len() >= 2;
    let mut j: usize = 0;
    assert(all.take(0) =~= Seq::<(Seq<char>, Seq<usize>)>::empty());
    while j < found.len()
        invariant
            j <= found@.len(),
            calls@.len() == keys.len(),
            cv == sessions::call_views(calls@),
            calls_inside(turns@, cv),
            all == groups::groups_of(keys),
            all == groups::group_views(found@),
            p == (|g: (Seq<char>, Seq<usize>)| g.1.len() >= 2),
            out@.len() == streaks::pick(all.take(j as int), p).len(),
            forall|k: int|
                0 <= k < out@.len() ==> is_dup(
                    #[trigger] out@[k],
                    session_id@,
                    turns@,
                    cv,
                    streaks::pick(all.take(j as int), p)[k],
                ),
        decreases found@.len() - j,
    {
        let n: usize = calls.len();
        assert(groups::group_views(found@).len() == found@.len());
        let ghost g = all[j as int];
        assert(groups::group_views(found@)[j as int] == (
            found@[j as int].key@,
            found@[j as int].members@,
        ));
        assert(all.take(j + 1).drop_last() =~= all.take(j as int));
        assert(all.take(j + 1).last() == g);
        let ms = &found[j].members;
        proof {
            let key = groups::first_seen(keys)[j as int];
            groups::lemma_positions(keys, key);
            assert(g == (key, groups::positions(keys, key)));
            assert forall|k: int| 0 <= k < ms@.len() implies (#[trigger] ms@[k]) < calls@.len() by {
                assert(groups::positions(keys, key)[k] < keys.len());
            }
        }
        if ms.len() >= 2 {
            let mut at: Vec<usize> = Vec::new();
            let mut k: usize = 0;
            while k < ms.len()
                invariant
                    k <= ms@.len(),
                    cv == sessions::call_views(calls@),
                    calls_inside(turns@, cv),
                    forall|k: int| 0 <= k < ms@.len() ==> (#[trigger] ms@[k]) < calls@.len(),
                    at@.len() == k,
                    forall|q: int| 0 <= q < k ==> #[trigger] at@[q] == cv[ms@[q] as int].0,
                    attempts::inside(at@, turns@.len()),
                decreases ms@.len() - k,
            {
                assert(ms@[k as int] < calls@.len());
                assert(cv[ms@[k as int] as int].0 == calls@[ms@[k as int] as int].0);
                at.push(calls[ms[k]].0);
                k = k + 1;
            }
            assert(at@ =~= turns_of_calls(cv, ms@));
            assert(ms@[0] < calls@.len());
            assert(ms@[ms@.len() - 1] < calls@.len());
            let first: usize = ms[0];
            let last: usize = ms[ms.len() - 1];
            assert(cv[first as int] == (
                calls@[first as int].0 as int,
                calls@[first as int].1 as int,
            ));
            assert(cv[last as int] == (calls@[last as int].0 as int, calls@[last as int].1 as int));
            let dup = SkillRecallDup {
                session_id: session_id.to_owned(),
                skill_name: found[j].key.clone(),
                call_count: ms.len() as u64,
                first_turn_index: turns[calls[first].0].turn_index,
                last_turn_index: turns[calls[last].0].turn_index,
                cost_turns: streaks::dedup_turns(turns, &at),
            };
            assert(is_dup(dup, session_id@, turns@, cv, g));
            out.push(dup);
        }
        j = j + 1;
    }
    assert(all.take(j as int) =~= all);
    out
}

/// The turns after turn index `invoked` that read from the cache.
pub open spec fn riding(turns: Seq<TurnRecord>, members: Seq<usize>, invoked: u64) -> Seq<usize> {
    streaks::pick(
        members,
        |m: usize|
            turns[m as int].turn_index > invoked && turns[m as int].usage.cache_read > 0,
    )
}

fn find_riding(turns: &[TurnRecord], members: &Vec<usize>, invoked: u64) -> (r: Vec<usize>)
    requires
        attempts::inside(members@, turns@.len()),
    ensures
        r@ == riding(turns@, members@, invoked),
        attempts::inside(r@, turns@.len()),
{
    let ghost p = |m: usize|
        turns@[m as int].turn_index > invoked && turns@[m as int].usage.cache_read > 0;
    let mut out: Vec<usize> = Vec::new();
    let mut i: usize = 0;
    assert(members@.take(0) =~= Seq::<usize>::empty());
    while i < members.len()
        invariant
            i <= members@.len(),
            attempts::inside(members@, turns@.len()),
            attempts::inside(out@, turns@.len()),
            p == (|m: usize|
                turns@[m as int].turn_index > invoked && turns@[m as int].usage.cache_read > 0),
            out@ == streaks::pick(members@.take(i as int), p),
        decreases members@.len() - i,
    {
        assert(members@.take(i + 1).drop_last() =~= members@.take(i as int));
        assert(members@.take(i + 1).last() == members@[i as int]);
        let m: usize = members[i];
        if turns[m].turn_index > invoked && turns[m].usage.cache_read > 0 {
            out.push(m);
        }
        i = i + 1;
    }
    assert(members@.take(i as int) =~= members@);
    out
}

/// Whether the finding is the one for the call at `c`.
pub open spec fn is_protection(
    r: SkillPruningProtection,
    session: Seq<char>,
    turns: Seq<TurnRecord>,
    members: Seq<usize>,
    c: (int, int),
) -> bool {
    let rides = riding(turns, members, turns[c.0].turn_index);
    &&& r.session_id@ == session
    &&& Some(r.skill_name@) == skill_of(turns, c)
    &&& r.invoked_turn_index == turns[c.0].turn_index
    &&& r.riding_turns == rides.len()
    &&& r.last_cached_turn_index == turns[rides.last() as int].turn_index
    &&& r.invoked_turn == c.0
    &&& r.cost_turns@ == rides
}

/// The calls that load a skill which later turns carry along.
pub open spec fn protected(turns: Seq<TurnRecord>, members: Seq<usize>) -> Seq<(int, int)> {
    if is_opencode(turns, members) {
        streaks::pick(
            skill_calls(turns, members),
            |c: (int, int)| riding(turns, members, turns[c.0].turn_index).len() > 0,
        )
    } else {
        Seq::empty()
    }
}

/// Finds the skills that later turns carry along.
pub fn detect_skill_pruning_protection(
    session_id: &str,
    turns: &[TurnRecord],
    members: &Vec<usize>,
) -> (r: Vec<SkillPruningProtection>)
    requires
        attempts::inside(members@, turns@.len()),
    ensures
        r@.len() == protected(turns@, members@).len(),
        forall|i: int|
            0 <= i < r@.len() ==> is_protection(
                #[trigger] r@[i],
                session_id@,
                turns@,
                members@,
                protected(turns@, members@)[i],
            ),
{
    let mut out: Vec<SkillPruningProtection> = Vec::new();
    if !check_opencode(turns, members) {
        return out;
    }
    let calls = find_skill_calls(turns, members);
    let ghost cv = skill_calls(turns@, members@);
    let ghost p = |c: (int, int)| riding(turns@, members@, turns@[c.0].turn_index).len() > 0;
    let mut i: usize = 0;
    assert(cv.take(0) =~= Seq::<(int, int)>::empty());
    while i < calls.len()
        invariant
            i <= calls@.len(),
            attempts::inside(members@, turns@.len()),
            cv == sessions::call_views(calls@),
            calls_inside(turns@, cv),
            forall|k: int| 0 <= k < calls@.len() ==> skill_of(turns@, #[trigger] cv[k]) is Some,
            p == (|c: (int, int)| riding(turns@, members@, turns@[c.0].turn_index).len() > 0),
            out@.len() == streaks::pick(cv.take(i as int), p).len(),
            forall|k: int|
                0 <= k < out@.len() ==> is_protection(
                    #[trigger] out@[k],
                    session_id@,
                    turns@,
                    members@,
                    streaks::pick(cv.take(i as int), p)[k],
                ),
        decreases calls@.len() - i,
    {
        let (m, j) = calls[i];
        assert(cv[i as int] == (m as int, j as int));
        assert(cv.take(i + 1).drop_last() =~= cv.take(i as int));
        assert(cv.take(i + 1).last() == cv[i as int]);
        let invoked: u64 = turns[m].turn_index;
        let rides = find_riding(turns, members, invoked);
        if rides.len() > 0 {
            let name = match &turns[m].tool_calls[j].skill_name {
                Some(s) => s.clone(),
                None => String::new(),
            };
            let last: usize = rides[rides.len() - 1];
            let found = SkillPruningProtection {
                session_id: session_id.to_owned(),
                skill_name: name,
                invoked_turn_index: invoked,
                riding_turns: rides.len() as u64,
                last_cached_turn_index: turns[last].turn_index,
                invoked_turn: m,
                cost_turns: rides,
            };
            assert(is_protection(found, session_id@, turns@, members@, cv[i as int]));
            out.push(found);
        }
        i = i + 1;
    }
    assert(cv.take(i as int) =~= cv);
    out
}

/// Tokens of the blocks.
pub open spec fn block_tokens(blocks: Seq<UserTurnBlock>) -> nat
    decreases blocks.len(),
{
    if blocks.len() == 0 {
        0
    } else {
        block_tokens(blocks.drop_last()) + blocks.last().approx_tokens as nat
    }
}

/// Tokens of the first user turn.
pub open spec fn first_user_tokens(users: Seq<UserTurnRecord>) -> nat {
    if users.len() == 0 {
        0
    } else {
        block_tokens(users[0].blocks@)
    }
}

fn sum_block_tokens(blocks: &Vec<UserTurnBlock>) -> (r: u128)
    ensures
        r == block_tokens(blocks@),
{
    let mut sum: u128 = 0;
    let mut i: usize = 0;
    assert(blocks@.take(0) =~= Seq::<UserTurnBlock>::empty());
    while i < blocks.len()
        invariant
            i <= blocks@.len(),
            sum == block_tokens(blocks@.take(i as int)),
            sum <= i * u64::MAX,
        decreases blocks@.len() - i,
    {
        assert(blocks@.take(i + 1).drop_last() =~= blocks@.take(i as int));
        assert((i + 1) * u64::MAX == i * u64::MAX + u64::MAX) by (nonlinear_arith);
        assert((i + 1) * u64::MAX <= u128::MAX) by (nonlinear_arith)
            requires
                i + 1 <= usize::MAX,
        ;
        sum = sum + blocks[i].approx_tokens as u128;
        i = i + 1;
    }
    assert(blocks@.take(i as int) =~= blocks@);
    sum
}

/// What the first turn of the session put into the cache.
pub open spec fn first_create(turns: Seq<TurnRecord>, members: Seq<usize>) -> int {
    let u = turns[members[0] as int].usage;
    u.cache_create_5m + u.cache_create_1h
}

/// The turns behind the first that read from the cache.
pub open spec fn taxed(turns: Seq<TurnRecord>, members: Seq<usize>) -> Seq<usize> {
    let first = turns[members[0] as int];
    streaks::pick(
        members,
        |m: usize|
            !(turns[m as int].message_id@ == first.message_id@ && turns[m as int].turn_index
                == first.turn_index) && turns[m as int].usage.cache_read > 0,
    )
}

/// Whether a system prompt can be told apart from the first user message and
/// later turns pay for it.
pub open spec fn is_taxed(
    turns: Seq<TurnRecord>,
    members: Seq<usize>,
    users: Seq<UserTurnRecord>,
) -> bool {
    &&& is_opencode(turns, members)
    &&& first_user_tokens(users) > 0
    &&& first_create(turns, members) > first_user_tokens(users)
    &&& taxed(turns, members).len() > 0
}

/// Whether the finding is the one for the session at `members`.
pub open spec fn is_tax(
    t: SystemPromptTax,
    session: Seq<char>,
    turns: Seq<TurnRecord>,
    members: Seq<usize>,
    users: Seq<UserTurnRecord>,
) -> bool {
    &&& t.session_id@ == session
    &&& t.first_turn_cache_create == first_create(turns, members)
    &&& t.first_user_message_tokens == first_user_tokens(users)
    &&& t.estimated_system_prompt_tokens == first_create(turns, members) - first_user_tokens(users)
    &&& t.riding_turns == taxed(turns, members).len()
    &&& t.cost_turns@ == taxed(turns, members)
}

/// Finds what the system prompt costs the turns behind the first.
pub fn detect_system_prompt_tax(
    session_id: &str,
    turns: &[TurnRecord],
    members: &Vec<usize>,
    users: &[UserTurnRecord],
) -> (r: Option<SystemPromptTax>)
    requires
        attempts::inside(members@, turns@.len()),
    ensures
        match r {
            Some(t) => is_taxed(turns@, members@, users@) && is_tax(
                t,
                session_id@,
                turns@,
                members@,
                users@,
            ),
            None => !is_taxed(turns@, members@, users@),
        },
{
    if !check_opencode(turns, members) {
        return None;
    }
    let first = &turns[members[0]];
    let create: u128 = first.usage.cache_create_5m as u128 + first.usage.cache_create_1h as u128;
    let user: u128 = if users.len() > 0 {
        sum_block_tokens(&users[0].blocks)
    } else {
        0
    };
    if user == 0 || create <= user {
        return None;
    }
    let ghost p = |m: usize|
        !(turns@[m as int].message_id@ == first.message_id@ && turns@[m as int].turn_index
            == first.turn_index) && turns@[m as int].usage.cache_read > 0;
    let mut rides: Vec<usize> = Vec::new();
    let mut i: usize = 0;
    assert(members@.take(0) =~= Seq::<usize>::empty());
    while i < members.len()
        invariant
            i <= members@.len(),
            attempts::inside(members@, turns@.len()),
            p == (|m: usize|
                !(turns@[m as int].message_id@ == first.message_id@ && turns@[m as int].turn_index
                    == first.turn_index) && turns@[m as int].usage.cache_read > 0),
            rides@ == streaks::pick(members@.take(i as int), p),
        decreases members@.len() - i,
    {
        assert(members@.take(i + 1).drop_last() =~= members@.take(i as int));
        assert(members@.take(i + 1).last() == members@[i as int]);
        let t = &turns[members[i]];
        let is_first = text::same(t.message_id.as_str(), first.message_id.as_str()) && t.turn_index
            == first.turn_index;
        if !is_first && t.usage.cache_read > 0 {
            rides.push(members[i]);
        }
        i = i + 1;
    }
    assert(members@.take(i as int) =~= members@);
    assert(rides@ == taxed(turns@, members@));
    if rides.len() == 0 {
        return None;
    }
    Some(
        SystemPromptTax {
            session_id: session_id.to_owned(),
            first_turn_cache_create: create,
            first_user_message_tokens: user,
            estimated_system_prompt_tokens: create - user,
            riding_turns: rides.len() as u64,
            cost_turns: rides,
        },
    )
}

} // verus!
