//! Skills that are loaded again, skills that are carried along, and system
//! prompts that every turn pays for.

use crate::groups;
use crate::hotspots;
use crate::laws;
use crate::patterns;
use crate::patterns::{DetectPatternsOptions, In, SessionFindings};
use crate::records::{SourceKind, TurnRecord, UserTurnBlock, UserTurnRecord};
use crate::sessions;
use crate::skills;
use crate::streaks;
use vstd::prelude::*;

verus! {

/// Whether the call loads the skill.
pub open spec fn loads(turns: Seq<TurnRecord>, c: (int, int), skill: Seq<char>) -> bool {
    let call = turns[c.0].tool_calls@[c.1];
    call.name@ == "skill"@ && (call.skill_name matches Some(n) && n@ == skill)
}

/// The calls that load the skill.
pub open spec fn loads_of(
    turns: Seq<TurnRecord>,
    calls: Seq<(int, int)>,
    skill: Seq<char>,
) -> Seq<(int, int)> {
    calls.filter(|c: (int, int)| loads(turns, c, skill))
}

/// Whether the first turn of the session comes from OpenCode.
pub open spec fn from_opencode(turns: Seq<TurnRecord>, members: Seq<usize>) -> bool {
    members.len() > 0 && turns[members[0] as int].source == SourceKind::Opencode
}

proof fn lemma_loads(turns: Seq<TurnRecord>, calls: Seq<(int, int)>, skill: Seq<char>)
    requires
        calls.len() <= usize::MAX,
    ensures
        ({
            let sc = streaks::pick(calls, |c: (int, int)| skills::skill_of(turns, c) is Some);
            let names = skills::skill_names(turns, sc);
            let p = groups::positions(names, skill);
            &&& sc.len() <= calls.len()
            &&& p.map_values(|i: usize| sc[i as int]) == loads_of(turns, calls, skill)
        }),
    decreases calls.len(),
{
    reveal(Seq::filter);
    let q = |c: (int, int)| skills::skill_of(turns, c) is Some;
    let sc = streaks::pick(calls, q);
    let names = skills::skill_names(turns, sc);
    let p = groups::positions(names, skill);
    let f = |i: usize| sc[i as int];
    if calls.len() > 0 {
        let d = calls.drop_last();
        lemma_loads(turns, d, skill);
        let sd = streaks::pick(d, q);
        let nd = skills::skill_names(turns, sd);
        let pd = groups::positions(nd, skill);
        let fd = |i: usize| sd[i as int];
        if q(calls.last()) {
            assert(sc == sd.push(calls.last()));
            assert(names.drop_last() =~= nd);
            groups::lemma_positions(nd, skill);
            assert forall|k: int| 0 <= k < pd.len() implies sc[pd[k] as int]
                == sd[#[trigger] pd[k] as int] by {
                assert(pd[k] < nd.len());
            }
            if names.last() == skill {
                assert(p.map_values(f) =~= pd.map_values(fd).push(calls.last()));
            } else {
                assert(p.map_values(f) =~= pd.map_values(fd));
            }
        } else {
            assert(sc == sd);
        }
    } else {
        assert(p.map_values(f) =~= Seq::<(int, int)>::empty());
    }
}

/// A skill that an OpenCode session loads more than once is reported, with how
/// often it was loaded, and when first and last.
pub proof fn lemma_reloads(
    f: SessionFindings,
    turns: Seq<TurnRecord>,
    opts: DetectPatternsOptions,
    g: int,
    skill: Seq<char>,
) -> (p: int)
    requires
        turns.len() <= usize::MAX,
        f.covers(turns, opts, sessions::sessions_of(turns)),
        0 <= g < sessions::sessions_of(turns).len(),
        ({
            let s = sessions::sessions_of(turns)[g];
            let calls = sessions::calls_of(turns, s.1);
            &&& calls.len() <= usize::MAX
            &&& from_opencode(turns, s.1)
            &&& loads_of(turns, calls, skill).len() >= 2
        }),
    ensures
        0 <= p < f.skill_recall_dups@.len(),
        ({
            let s = sessions::sessions_of(turns)[g];
            let found = loads_of(turns, sessions::calls_of(turns, s.1), skill);
            let r = f.skill_recall_dups@[p];
            &&& r.session_id@ == s.0
            &&& r.skill_name@ == skill
            &&& r.call_count == found.len()
            &&& r.first_turn_index == turns[found[0].0].turn_index
            &&& r.last_turn_index == turns[found.last().0].turn_index
        }),
{
    let all = sessions::sessions_of(turns);
    let s = all[g];
    let calls = sessions::calls_of(turns, s.1);
    let sc = skills::skill_calls(turns, s.1);
    let names = skills::skill_names(turns, sc);
    let at = groups::positions(names, skill);
    let found = loads_of(turns, calls, skill);
    lemma_loads(turns, calls, skill);
    let mapped = at.map_values(|i: usize| sc[i as int]);
    assert(mapped == found);
    assert(mapped.len() == at.len());
    assert(mapped[0] == sc[at[0] as int]);
    assert(mapped.last() == sc[at.last() as int]);
    groups::lemma_positions(names, skill);
    groups::lemma_first_seen(names);
    assert(names.contains(skill));
    let gs = groups::groups_of(names);
    let fs = groups::first_seen(names);
    assert(fs.contains(skill));
    let i = choose|i: int| 0 <= i < fs.len() && fs[i] == skill;
    assert(gs[i] == (skill, at));
    assert(gs.contains((skill, at)));
    let many = |x: (Seq<char>, Seq<usize>)| x.1.len() >= 2;
    laws::streaks::lemma_pick_both(gs, many, (skill, at));
    let items = skills::recalled(turns, s.1);
    let k = choose|k: int| 0 <= k < items.len() && items[k] == (skill, at);
    let lists = all.map_values(|g: (Seq<char>, Seq<usize>)| patterns::dups_in(turns, g));
    assert(lists[g] == patterns::dups_in(turns, s));
    assert(lists[g][k] == In { session: s.0, members: s.1, item: (skill, at) });
    laws::edits::lemma_in_chain(f.skill_recall_dups@, lists, patterns::dup_rule(turns), g, k)
}

/// Nothing else is reported as loaded again.
pub proof fn lemma_only_reloads(
    f: SessionFindings,
    turns: Seq<TurnRecord>,
    opts: DetectPatternsOptions,
    p: int,
) -> (g: int)
    requires
        f.covers(turns, opts, sessions::sessions_of(turns)),
        0 <= p < f.skill_recall_dups@.len(),
    ensures
        ({
            let s = sessions::sessions_of(turns)[g];
            let calls = sessions::calls_of(turns, s.1);
            let r = f.skill_recall_dups@[p];
            &&& 0 <= g < sessions::sessions_of(turns).len()
            &&& r.session_id@ == s.0
            &&& from_opencode(turns, s.1)
            &&& r.call_count >= 2
            &&& calls.len() <= usize::MAX ==> r.call_count == loads_of(
                turns,
                calls,
                r.skill_name@,
            ).len()
        }),
{
    let all = sessions::sessions_of(turns);
    let lists = all.map_values(|g: (Seq<char>, Seq<usize>)| patterns::dups_in(turns, g));
    let (g, k) = laws::edits::lemma_from_chain(
        f.skill_recall_dups@,
        lists,
        patterns::dup_rule(turns),
        p,
    );
    let s = all[g];
    assert(lists[g] == patterns::dups_in(turns, s));
    let items = skills::recalled(turns, s.1);
    assert(lists[g][k] == In { session: s.0, members: s.1, item: items[k] });
    let names = skills::skill_names(turns, skills::skill_calls(turns, s.1));
    let gs = groups::groups_of(names);
    let many = |x: (Seq<char>, Seq<usize>)| x.1.len() >= 2;
    assert(items.contains(items[k]));
    laws::streaks::lemma_pick_both(gs, many, items[k]);
    let i = choose|i: int| 0 <= i < gs.len() && gs[i] == items[k];
    assert(gs[i].1 == groups::positions(names, gs[i].0));
    let calls = sessions::calls_of(turns, s.1);
    if calls.len() <= usize::MAX {
        lemma_loads(turns, calls, items[k].0);
        let sc = skills::skill_calls(turns, s.1);
        assert(items[k].1.map_values(|i: usize| sc[i as int]).len() == items[k].1.len());
    }
    g
}

/// The later turns that read from their caches.
pub open spec fn carriers(turns: Seq<TurnRecord>, members: Seq<usize>, index: u64) -> Seq<usize> {
    members.filter(
        |m: usize| turns[m as int].turn_index > index && turns[m as int].usage.cache_read > 0,
    )
}

/// A skill that an OpenCode session loads is reported as carried along where any
/// later turn reads from its cache; the turns that do so are listed.
pub proof fn lemma_carried_skills(
    f: SessionFindings,
    turns: Seq<TurnRecord>,
    opts: DetectPatternsOptions,
    g: int,
    c: int,
    skill: Seq<char>,
) -> (p: int)
    requires
        f.covers(turns, opts, sessions::sessions_of(turns)),
        0 <= g < sessions::sessions_of(turns).len(),
        ({
            let s = sessions::sessions_of(turns)[g];
            let calls = sessions::calls_of(turns, s.1);
            &&& from_opencode(turns, s.1)
            &&& 0 <= c < calls.len()
            &&& loads(turns, calls[c], skill)
            &&& carriers(turns, s.1, turns[calls[c].0].turn_index).len() > 0
        }),
    ensures
        0 <= p < f.skill_pruning_protection@.len(),
        ({
            let s = sessions::sessions_of(turns)[g];
            let call = sessions::calls_of(turns, s.1)[c];
            let rides = carriers(turns, s.1, turns[call.0].turn_index);
            let r = f.skill_pruning_protection@[p];
            &&& r.session_id@ == s.0
            &&& r.skill_name@ == skill
            &&& r.invoked_turn == call.0
            &&& r.invoked_turn_index == turns[call.0].turn_index
            &&& r.riding_turns == rides.len()
            &&& r.cost_turns@ == rides
            &&& r.last_cached_turn_index == turns[rides.last() as int].turn_index
        }),
{
    let all = sessions::sessions_of(turns);
    let s = all[g];
    let calls = sessions::calls_of(turns, s.1);
    let call = calls[c];
    lemma_carriers(turns, s.1, turns[call.0].turn_index);
    assert(calls.contains(call));
    let has_name = |c: (int, int)| skills::skill_of(turns, c) is Some;
    laws::streaks::lemma_pick_both(calls, has_name, call);
    let rides = |c: (int, int)| skills::riding(turns, s.1, turns[c.0].turn_index).len() > 0;
    laws::streaks::lemma_pick_both(skills::skill_calls(turns, s.1), rides, call);
    let items = skills::protected(turns, s.1);
    let k = choose|k: int| 0 <= k < items.len() && items[k] == call;
    let lists = all.map_values(|g: (Seq<char>, Seq<usize>)| patterns::protections_in(turns, g));
    assert(lists[g] == patterns::protections_in(turns, s));
    assert(lists[g][k] == In { session: s.0, members: s.1, item: call });
    laws::edits::lemma_in_chain(
        f.skill_pruning_protection@,
        lists,
        patterns::protection_rule(turns),
        g,
        k,
    )
}

proof fn lemma_carriers(turns: Seq<TurnRecord>, members: Seq<usize>, index: u64)
    ensures
        skills::riding(turns, members, index) == carriers(turns, members, index),
{
    laws::edits::lemma_pick_is_filter(
        members,
        |m: usize| turns[m as int].turn_index > index && turns[m as int].usage.cache_read > 0,
        |m: usize| turns[m as int].turn_index > index && turns[m as int].usage.cache_read > 0,
    );
}

/// Nothing else is reported as carried along.
pub proof fn lemma_only_carried_skills(
    f: SessionFindings,
    turns: Seq<TurnRecord>,
    opts: DetectPatternsOptions,
    p: int,
) -> (r: (int, int))
    requires
        f.covers(turns, opts, sessions::sessions_of(turns)),
        0 <= p < f.skill_pruning_protection@.len(),
    ensures
        ({
            let s = sessions::sessions_of(turns)[r.0];
            let calls = sessions::calls_of(turns, s.1);
            let x = f.skill_pruning_protection@[p];
            &&& 0 <= r.0 < sessions::sessions_of(turns).len()
            &&& 0 <= r.1 < calls.len()
            &&& from_opencode(turns, s.1)
            &&& x.session_id@ == s.0
            &&& loads(turns, calls[r.1], x.skill_name@)
            &&& x.riding_turns > 0
            &&& x.riding_turns == carriers(turns, s.1, turns[calls[r.1].0].turn_index).len()
        }),
{
    let all = sessions::sessions_of(turns);
    let lists = all.map_values(|g: (Seq<char>, Seq<usize>)| patterns::protections_in(turns, g));
    let (g, k) = laws::edits::lemma_from_chain(
        f.skill_pruning_protection@,
        lists,
        patterns::protection_rule(turns),
        p,
    );
    let s = all[g];
    assert(lists[g] == patterns::protections_in(turns, s));
    let items = skills::protected(turns, s.1);
    let call = items[k];
    assert(lists[g][k] == In { session: s.0, members: s.1, item: call });
    assert(items.contains(call));
    let calls = sessions::calls_of(turns, s.1);
    let has_name = |c: (int, int)| skills::skill_of(turns, c) is Some;
    let rides = |c: (int, int)| skills::riding(turns, s.1, turns[c.0].turn_index).len() > 0;
    laws::streaks::lemma_pick_both(skills::skill_calls(turns, s.1), rides, call);
    laws::streaks::lemma_pick_both(calls, has_name, call);
    lemma_carriers(turns, s.1, turns[call.0].turn_index);
    let c = choose|c: int| 0 <= c < calls.len() && calls[c] == call;
    (g, c)
}

/// The tokens of the first thing that the user said.
pub open spec fn said_first(users: Seq<UserTurnRecord>) -> int {
    if users.len() == 0 {
        0
    } else {
        users[0].blocks@.fold_left(0int, |n: int, b: UserTurnBlock| n + b.approx_tokens)
    }
}

/// The turns behind the first that read from their caches.
pub open spec fn payers(turns: Seq<TurnRecord>, members: Seq<usize>) -> Seq<usize> {
    let first = turns[members[0] as int];
    members.filter(
        |m: usize|
            turns[m as int].usage.cache_read > 0 && (turns[m as int].message_id@
                != first.message_id@ || turns[m as int].turn_index != first.turn_index),
    )
}

/// Whether the session pays for a system prompt: the first turn of an OpenCode
/// session puts more into its cache, under either lifetime, than the user had
/// said, and a later turn reads from its cache.
pub open spec fn pays_for_prompt(
    turns: Seq<TurnRecord>,
    members: Seq<usize>,
    users: Seq<UserTurnRecord>,
) -> bool {
    let u = turns[members[0] as int].usage;
    &&& from_opencode(turns, members)
    &&& said_first(users) > 0
    &&& u.cache_create_5m + u.cache_create_1h > said_first(users)
    &&& payers(turns, members).len() > 0
}

proof fn lemma_said(blocks: Seq<UserTurnBlock>)
    ensures
        skills::block_tokens(blocks) == blocks.fold_left(
            0int,
            |n: int, b: UserTurnBlock| n + b.approx_tokens,
        ),
    decreases blocks.len(),
{
    if blocks.len() > 0 {
        lemma_said(blocks.drop_last());
    }
}

proof fn lemma_payers(
    turns: Seq<TurnRecord>,
    members: Seq<usize>,
    users: Seq<UserTurnRecord>,
)
    ensures
        skills::taxed(turns, members) == payers(turns, members),
        skills::first_user_tokens(users) == said_first(users),
        skills::is_taxed(turns, members, users) == pays_for_prompt(turns, members, users),
{
    let first = turns[members[0] as int];
    if users.len() > 0 {
        lemma_said(users[0].blocks@);
    }
    laws::edits::lemma_pick_is_filter(
        members,
        |m: usize|
            !(turns[m as int].message_id@ == first.message_id@ && turns[m as int].turn_index
                == first.turn_index) && turns[m as int].usage.cache_read > 0,
        |m: usize|
            turns[m as int].usage.cache_read > 0 && (turns[m as int].message_id@
                != first.message_id@ || turns[m as int].turn_index != first.turn_index),
    );
}

/// Every session that pays for a system prompt is reported. The prompt is taken
/// for what the first turn put into its cache less what the user had said.
pub proof fn lemma_prompt_taxes(
    f: SessionFindings,
    turns: Seq<TurnRecord>,
    opts: DetectPatternsOptions,
    g: int,
) -> (p: int)
    requires
        f.covers(turns, opts, sessions::sessions_of(turns)),
        0 <= g < sessions::sessions_of(turns).len(),
        ({
            let s = sessions::sessions_of(turns)[g];
            pays_for_prompt(
                turns,
                s.1,
                hotspots::records_of(opts.user_turns_by_session@, s.0),
            )
        }),
    ensures
        0 <= p < f.system_prompt_taxes@.len(),
        ({
            let s = sessions::sessions_of(turns)[g];
            let users = hotspots::records_of(opts.user_turns_by_session@, s.0);
            let u = turns[s.1[0] as int].usage;
            let t = f.system_prompt_taxes@[p];
            &&& t.session_id@ == s.0
            &&& t.first_turn_cache_create == u.cache_create_5m + u.cache_create_1h
            &&& t.first_user_message_tokens == said_first(users)
            &&& t.estimated_system_prompt_tokens == t.first_turn_cache_create
                - t.first_user_message_tokens
            &&& t.riding_turns == payers(turns, s.1).len()
            &&& t.cost_turns@ == payers(turns, s.1)
        }),
{
    let all = sessions::sessions_of(turns);
    let s = all[g];
    let all_users = opts.user_turns_by_session@;
    lemma_payers(turns, s.1, hotspots::records_of(all_users, s.0));
    let lists = all.map_values(
        |g: (Seq<char>, Seq<usize>)| patterns::taxes_in(turns, all_users, g),
    );
    assert(lists[g] == patterns::taxes_in(turns, all_users, s));
    assert(lists[g][0] == In { session: s.0, members: s.1, item: () });
    laws::edits::lemma_in_chain(
        f.system_prompt_taxes@,
        lists,
        patterns::tax_rule(turns, all_users),
        g,
        0,
    )
}

/// No other session is reported to pay for a system prompt.
pub proof fn lemma_only_prompt_taxes(
    f: SessionFindings,
    turns: Seq<TurnRecord>,
    opts: DetectPatternsOptions,
    p: int,
) -> (g: int)
    requires
        f.covers(turns, opts, sessions::sessions_of(turns)),
        0 <= p < f.system_prompt_taxes@.len(),
    ensures
        0 <= g < sessions::sessions_of(turns).len(),
        ({
            let s = sessions::sessions_of(turns)[g];
            f.system_prompt_taxes@[p].session_id@ == s.0 && pays_for_prompt(
                turns,
                s.1,
                hotspots::records_of(opts.user_turns_by_session@, s.0),
            )
        }),
{
    let all = sessions::sessions_of(turns);
    let all_users = opts.user_turns_by_session@;
    let lists = all.map_values(
        |g: (Seq<char>, Seq<usize>)| patterns::taxes_in(turns, all_users, g),
    );
    let (g, k) = laws::edits::lemma_from_chain(
        f.system_prompt_taxes@,
        lists,
        patterns::tax_rule(turns, all_users),
        p,
    );
    let s = all[g];
    assert(lists[g] == patterns::taxes_in(turns, all_users, s));
    assert(lists[g][k] == In { session: s.0, members: s.1, item: () });
    lemma_payers(turns, s.1, hotspots::records_of(all_users, s.0));
    g
}

} // verus!
