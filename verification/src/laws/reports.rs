//! The outcomes that reports give.

use crate::attempts;
use crate::groups;
use crate::laws;
use crate::order;
use crate::records::{ToolResultEventRecord, ToolResultEventSource, ToolResultStatus, TurnRecord};
use crate::sessions;
use crate::streaks;
use crate::streaks::{AttemptView, Outcome};
use crate::text;
use vstd::prelude::*;

verus! {

/// The time of a report; none is taken for the empty text.
pub open spec fn time(e: ToolResultEventRecord) -> Seq<char> {
    if e.ts is Some {
        e.ts->Some_0@
    } else {
        Seq::empty()
    }
}

/// Whether report `a` comes before report `b`: by its index, then its time,
/// then its call, and else as they stand.
pub open spec fn precedes(events: Seq<ToolResultEventRecord>, a: usize, b: usize) -> bool {
    let x = events[a as int];
    let y = events[b as int];
    ||| x.event_index < y.event_index
    ||| x.event_index == y.event_index && text::str_lt(time(x), time(y))
    ||| x.event_index == y.event_index && time(x) == time(y) && text::str_lt(
        x.tool_use_id@,
        y.tool_use_id@,
    )
    ||| x.event_index == y.event_index && time(x) == time(y) && x.tool_use_id@ == y.tool_use_id@
        && a < b
}

/// Whether no other report of those at `at` on the same call comes after the
/// one at `p`.
pub open spec fn is_last_word(
    events: Seq<ToolResultEventRecord>,
    at: Seq<usize>,
    p: usize,
) -> bool {
    &&& at.contains(p)
    &&& forall|q: usize|
        #![trigger at.contains(q)]
        at.contains(q) && q != p && events[q as int].tool_use_id@
            == events[p as int].tool_use_id@ ==> precedes(events, q, p)
}

proof fn lemma_order_is_weak(events: Seq<ToolResultEventRecord>)
    ensures
        order::strict_weak(attempts::event_order(events)),
{
    let lt = attempts::event_order(events);
    assert forall|a: usize| !#[trigger] lt(a, a) by {
        let x = events[a as int].tool_use_id@;
        text::lemma_str_lt(x, x, x);
    }
    assert forall|a: usize, b: usize, c: usize| #[trigger] lt(a, b) && #[trigger] lt(
        b,
        c,
    ) implies lt(a, c) by {
        lemma_three(events[a as int], events[b as int], events[c as int]);
    }
    assert forall|a: usize, b: usize, c: usize| #[trigger] lt(a, c) implies lt(a, b)
        || #[trigger] lt(b, c) by {
        lemma_three(events[a as int], events[b as int], events[c as int]);
        lemma_three(events[b as int], events[a as int], events[c as int]);
    }
}

proof fn lemma_three(a: ToolResultEventRecord, b: ToolResultEventRecord, c: ToolResultEventRecord)
    ensures
        text::str_lt(time(a), time(b)) && text::str_lt(time(b), time(c)) ==> text::str_lt(
            time(a),
            time(c),
        ),
        text::str_lt(a.tool_use_id@, b.tool_use_id@) && text::str_lt(
            b.tool_use_id@,
            c.tool_use_id@,
        ) ==> text::str_lt(a.tool_use_id@, c.tool_use_id@),
        text::str_lt(time(a), time(b)) || text::str_lt(time(b), time(a)) || time(a) == time(b),
        text::str_lt(a.tool_use_id@, b.tool_use_id@) || text::str_lt(
            b.tool_use_id@,
            a.tool_use_id@,
        ) || a.tool_use_id@ == b.tool_use_id@,
        !text::str_lt(time(a), time(a)),
        !text::str_lt(a.tool_use_id@, a.tool_use_id@),
        attempts::time_of(a.ts) == time(a),
        attempts::time_of(b.ts) == time(b),
        attempts::time_of(c.ts) == time(c),
{
    text::lemma_str_lt(time(a), time(b), time(c));
    text::lemma_str_lt(a.tool_use_id@, b.tool_use_id@, c.tool_use_id@);
}

proof fn lemma_not_both(events: Seq<ToolResultEventRecord>, a: usize, b: usize)
    requires
        precedes(events, a, b),
    ensures
        !precedes(events, b, a),
        a != b,
{
    lemma_three(events[a as int], events[b as int], events[a as int]);
    lemma_three(events[b as int], events[a as int], events[b as int]);
}

proof fn lemma_chronological(events: Seq<ToolResultEventRecord>, at: Seq<usize>)
    requires
        forall|i: int, j: int| 0 <= i < j < at.len() ==> at[i] < at[j],
    ensures
        ({
            let ch = attempts::chronological(events, at);
            &&& ch.len() == at.len()
            &&& forall|x: usize| #[trigger] ch.contains(x) <==> at.contains(x)
            &&& forall|i: int, j: int|
                #![trigger ch[i], ch[j]]
                0 <= i < j < ch.len() ==> precedes(events, ch[i], ch[j])
        }),
{
    let lt = attempts::event_order(events);
    let ch = attempts::chronological(events, at);
    lemma_order_is_weak(events);
    laws::sessions::lemma_sorted_positions(at, lt);
    assert forall|i: int, j: int|
        #![trigger ch[i], ch[j]]
        0 <= i < j < ch.len() implies precedes(events, ch[i], ch[j]) by {
        assert(lt(ch[i], ch[j]) || (!lt(ch[j], ch[i]) && ch[i] < ch[j]));
        lemma_three(events[ch[i] as int], events[ch[j] as int], events[ch[i] as int]);
    }
}

proof fn lemma_last_reports(events: Seq<ToolResultEventRecord>, at: Seq<usize>, p: usize)
    requires
        at.len() <= usize::MAX,
        forall|i: int, j: int| 0 <= i < j < at.len() ==> at[i] < at[j],
    ensures
        attempts::last_reports(events, attempts::chronological(events, at)).contains(p)
            <==> is_last_word(events, at, p),
{
    let ch = attempts::chronological(events, at);
    lemma_chronological(events, at);
    let ids = attempts::report_ids(events, ch);
    let gs = groups::groups_of(ids);
    let last = attempts::last_reports(events, ch);
    groups::lemma_first_seen(ids);
    if is_last_word(events, at, p) {
        assert(ch.contains(p));
        let i = choose|i: int| 0 <= i < ch.len() && ch[i] == p;
        let id = events[p as int].tool_use_id@;
        assert(ids[i] == id);
        groups::lemma_positions(ids, id);
        assert(ids.contains(id));
        assert(groups::first_seen(ids).contains(id));
        let g = choose|g: int|
            0 <= g < groups::first_seen(ids).len() && groups::first_seen(ids)[g] == id;
        let ps = groups::positions(ids, id);
        assert(ps.contains(i as usize));
        let k = choose|k: int| 0 <= k < ps.len() && ps[k] == i as usize;
        let l = ps.last() as int;
        assert(ids[ps[ps.len() - 1] as int] == id);
        if l != i {
            assert(i < l) by {
                assert(k < ps.len() - 1);
                assert(ps[k] < ps[ps.len() - 1]);
            }
            assert(precedes(events, ch[i], ch[l]));
            lemma_not_both(events, ch[i], ch[l]);
            assert(ch.contains(ch[l]));
            assert(at.contains(ch[l]));
            assert(false);
        }
        assert(gs[g] == (id, ps));
        assert(last[g] == p);
    }
    if last.contains(p) {
        let g = choose|g: int| 0 <= g < last.len() && last[g] == p;
        let id = groups::first_seen(ids)[g];
        let ps = groups::positions(ids, id);
        assert(gs[g] == (id, ps));
        assert(groups::first_seen(ids).contains(id));
        groups::lemma_positions(ids, id);
        let l = ps.last() as int;
        assert(ps[ps.len() - 1] < ids.len());
        assert(ids[ps[ps.len() - 1] as int] == id);
        assert(ch[l] == p);
        assert(ch.contains(p));
        assert forall|q: usize|
            #![trigger at.contains(q)]
            at.contains(q) && q != p && events[q as int].tool_use_id@
                == events[p as int].tool_use_id@ implies precedes(events, q, p) by {
            assert(ch.contains(q));
            let j = choose|j: int| 0 <= j < ch.len() && ch[j] == q;
            assert(ids[j] == id);
            assert(ps.contains(j as usize));
            let k = choose|k: int| 0 <= k < ps.len() && ps[k] == j as usize;
            assert(k < ps.len() - 1);
            assert(ps[k] < ps[ps.len() - 1]);
            assert(precedes(events, ch[j], ch[l]));
        }
    }
}

proof fn lemma_terminal(events: Seq<ToolResultEventRecord>, at: Seq<usize>, p: usize)
    requires
        at.len() <= usize::MAX,
        forall|i: int, j: int| 0 <= i < j < at.len() ==> at[i] < at[j],
    ensures
        attempts::terminal_reports(events, at).contains(p) <==> is_last_word(events, at, p)
            && events[p as int].status != ToolResultStatus::Running,
{
    let last = attempts::last_reports(events, attempts::chronological(events, at));
    let ch = attempts::chronological(events, last);
    lemma_last_reports(events, at, p);
    order::lemma_sort_multiset(last, attempts::event_order(events));
    last.to_multiset_ensures();
    ch.to_multiset_ensures();
    assert(ch.contains(p) <==> last.contains(p)) by {
        assert(ch.to_multiset().count(p) == last.to_multiset().count(p));
    }
    laws::streaks::lemma_pick_both(
        ch,
        |p: usize| events[p as int].status != ToolResultStatus::Running,
        p,
    );
}

/// Whether the attempt has the outcome that the report gives, and its source.
pub open spec fn tells_outcome(a: AttemptView, e: ToolResultEventRecord) -> bool {
    &&& a.tool_use_id == e.tool_use_id@
    &&& a.source == e.event_source
    &&& e.status == ToolResultStatus::Errored ==> a.outcome == Outcome::Errored
    &&& e.status == ToolResultStatus::Cancelled ==> a.outcome == Outcome::Cancelled
    &&& e.status != ToolResultStatus::Errored && e.status != ToolResultStatus::Cancelled
        ==> a.outcome == Outcome::Other
}

/// The last report on a call counts, unless it says that the call still runs.
pub proof fn lemma_last_word_counts(
    turns: Seq<TurnRecord>,
    members: Seq<usize>,
    events: Seq<ToolResultEventRecord>,
    at: Seq<usize>,
    p: usize,
) -> (k: int)
    requires
        at.len() <= usize::MAX,
        forall|i: int, j: int| 0 <= i < j < at.len() ==> at[i] < at[j],
        is_last_word(events, at, p),
        events[p as int].status != ToolResultStatus::Running,
    ensures
        0 <= k < attempts::event_attempts(turns, members, events, at).len(),
        attempts::event_attempts(turns, members, events, at)[k] == attempts::event_attempt(
            turns,
            members,
            events[p as int],
        ),
        tells_outcome(
            attempts::event_attempts(turns, members, events, at)[k],
            events[p as int],
        ),
{
    lemma_terminal(events, at, p);
    let t = attempts::terminal_reports(events, at);
    choose|k: int| 0 <= k < t.len() && t[k] == p
}

/// Nothing counts but the last report on a call that does not run any more.
pub proof fn lemma_only_last_words(
    turns: Seq<TurnRecord>,
    members: Seq<usize>,
    events: Seq<ToolResultEventRecord>,
    at: Seq<usize>,
    k: int,
) -> (p: usize)
    requires
        at.len() <= usize::MAX,
        forall|i: int, j: int| 0 <= i < j < at.len() ==> at[i] < at[j],
        0 <= k < attempts::event_attempts(turns, members, events, at).len(),
    ensures
        is_last_word(events, at, p),
        events[p as int].status != ToolResultStatus::Running,
        tells_outcome(
            attempts::event_attempts(turns, members, events, at)[k],
            events[p as int],
        ),
{
    let t = attempts::terminal_reports(events, at);
    assert(t.contains(t[k]));
    lemma_terminal(events, at, t[k]);
    t[k]
}

proof fn lemma_last_call(turns: Seq<TurnRecord>, calls: Seq<(int, int)>, id: Seq<char>, k: int)
    requires
        -1 <= k < calls.len(),
        k >= 0 ==> turns[calls[k].0].tool_calls@[calls[k].1].id@ == id,
        forall|j: int|
            k < j < calls.len() ==> turns[(#[trigger] calls[j]).0].tool_calls@[calls[j].1].id@
                != id,
    ensures
        attempts::last_call(turns, calls, id) == (if k >= 0 {
            Some(calls[k])
        } else {
            None
        }),
    decreases calls.len(),
{
    if calls.len() > 0 && k < calls.len() - 1 {
        let d = calls.drop_last();
        let l = calls[calls.len() - 1];
        assert(turns[l.0].tool_calls@[l.1].id@ != id);
        assert forall|j: int| k < j < d.len() implies turns[(#[trigger] d[j]).0].tool_calls@[d[j].1].id@
            != id by {
            assert(d[j] == calls[j]);
        }
        lemma_last_call(turns, d, id, k);
    }
}

/// A report on a call of the session tells its tool, its target, its arguments
/// and its turn. Where two calls go by one id, it is on the last.
pub proof fn lemma_report_on_call(
    turns: Seq<TurnRecord>,
    members: Seq<usize>,
    e: ToolResultEventRecord,
    k: int,
)
    requires
        turns.len() <= usize::MAX,
        forall|i: int| 0 <= i < members.len() ==> (#[trigger] members[i]) < turns.len(),
        ({
            let calls = sessions::calls_of(turns, members);
            &&& 0 <= k < calls.len()
            &&& turns[calls[k].0].tool_calls@[calls[k].1].id@ == e.tool_use_id@
            &&& forall|j: int|
                k < j < calls.len() ==> turns[(#[trigger] calls[j]).0].tool_calls@[calls[j].1].id@
                    != e.tool_use_id@
        }),
    ensures
        ({
            let c = sessions::calls_of(turns, members)[k];
            let call = turns[c.0].tool_calls@[c.1];
            let a = attempts::event_attempt(turns, members, e);
            &&& a.tool == call.name@
            &&& a.args_hash == Some(call.args_hash@)
            &&& a.call_id == Some(call.id@)
            &&& a.target is Some == call.target is Some
            &&& call.target is Some ==> a.target == Some(call.target->Some_0@)
            &&& a.turn_index == turns[c.0].turn_index
            &&& a.turn == Some(c.0 as usize)
        }),
{
    sessions::lemma_calls_inside(turns, members);
    lemma_last_call(turns, sessions::calls_of(turns, members), e.tool_use_id@, k);
}

/// A report on no call of the session goes by the name of its source, and tells
/// no arguments. It belongs to the last turn of its message, where there is
/// one.
pub proof fn lemma_report_on_no_call(
    turns: Seq<TurnRecord>,
    members: Seq<usize>,
    e: ToolResultEventRecord,
    k: int,
)
    requires
        forall|j: int|
            0 <= j < sessions::calls_of(turns, members).len() ==> turns[(
            #[trigger] sessions::calls_of(turns, members)[j]).0].tool_calls@[sessions::calls_of(
                turns,
                members,
            )[j].1].id@ != e.tool_use_id@,
        -1 <= k < members.len(),
        k >= 0 ==> e.message_id is Some && turns[members[k] as int].message_id@
            == e.message_id->Some_0@,
        e.message_id is Some ==> forall|j: int|
            k < j < members.len() ==> turns[(#[trigger] members[j]) as int].message_id@
                != e.message_id->Some_0@,
    ensures
        ({
            let a = attempts::event_attempt(turns, members, e);
            &&& a.args_hash is None
            &&& a.call_id is None
            &&& a.target is None
            &&& e.event_source == ToolResultEventSource::SubagentNotification ==> a.tool
                == "Subagent"@
            &&& e.event_source == ToolResultEventSource::FunctionCallOutput ==> a.tool
                == "FunctionCall"@
            &&& e.event_source == ToolResultEventSource::QueueEvent ==> a.tool == "QueueEvent"@
            &&& e.event_source == ToolResultEventSource::ProgressEvent ==> a.tool
                == "ProgressEvent"@
            &&& e.event_source == ToolResultEventSource::ToolResult ==> a.tool == "Tool"@
            &&& k >= 0 ==> a.turn == Some(members[k]) && a.turn_index
                == turns[members[k] as int].turn_index
            &&& k < 0 && e.ts is None ==> a.turn is None && a.turn_index == e.event_index
        }),
{
    lemma_last_call(turns, sessions::calls_of(turns, members), e.tool_use_id@, -1);
    if e.message_id is Some {
        lemma_turn_of_message(turns, members, e.message_id->Some_0@, k);
    }
}

proof fn lemma_turn_of_message(
    turns: Seq<TurnRecord>,
    members: Seq<usize>,
    id: Seq<char>,
    k: int,
)
    requires
        -1 <= k < members.len(),
        k >= 0 ==> turns[members[k] as int].message_id@ == id,
        forall|j: int|
            k < j < members.len() ==> turns[(#[trigger] members[j]) as int].message_id@ != id,
    ensures
        attempts::turn_of_message(turns, members, id) == (if k >= 0 {
            Some(members[k])
        } else {
            None
        }),
    decreases members.len(),
{
    if members.len() > 0 && k < members.len() - 1 {
        let d = members.drop_last();
        assert(turns[members[members.len() - 1] as int].message_id@ != id);
        assert forall|j: int| k < j < d.len() implies turns[(#[trigger] d[j]) as int].message_id@
            != id by {
            assert(d[j] == members[j]);
        }
        lemma_turn_of_message(turns, d, id, k);
    }
}

/// A report on no call and with no message belongs to the last of the turns
/// that lead up to its time, or to the first one.
pub proof fn lemma_report_by_time(
    turns: Seq<TurnRecord>,
    members: Seq<usize>,
    e: ToolResultEventRecord,
    k: int,
)
    requires
        forall|j: int|
            0 <= j < sessions::calls_of(turns, members).len() ==> turns[(
            #[trigger] sessions::calls_of(turns, members)[j]).0].tool_calls@[sessions::calls_of(
                turns,
                members,
            )[j].1].id@ != e.tool_use_id@,
        e.message_id is None,
        e.ts is Some,
        0 <= k < members.len(),
        forall|j: int|
            0 <= j < k ==> !text::str_lt(
                e.ts->Some_0@,
                turns[(#[trigger] members[j]) as int].ts@,
            ),
        k > 0 ==> !text::str_lt(e.ts->Some_0@, turns[members[k] as int].ts@),
        k + 1 < members.len() && (k > 0 || !text::str_lt(
            e.ts->Some_0@,
            turns[members[0] as int].ts@,
        )) ==> text::str_lt(e.ts->Some_0@, turns[members[k + 1] as int].ts@),
    ensures
        attempts::event_attempt(turns, members, e).turn == Some(members[k]),
        attempts::event_attempt(turns, members, e).turn_index
            == turns[members[k] as int].turn_index,
{
    lemma_last_call(turns, sessions::calls_of(turns, members), e.tool_use_id@, -1);
    let ts = e.ts->Some_0@;
    let n = if text::str_lt(ts, turns[members[0] as int].ts@) {
        0
    } else {
        k + 1
    };
    lemma_lead(turns, members, ts, n);
}

proof fn lemma_lead(turns: Seq<TurnRecord>, members: Seq<usize>, ts: Seq<char>, n: int)
    requires
        0 <= n <= members.len(),
        forall|j: int|
            0 <= j < n ==> !text::str_lt(ts, turns[(#[trigger] members[j]) as int].ts@),
        n < members.len() ==> text::str_lt(ts, turns[members[n] as int].ts@),
    ensures
        attempts::lead(turns, members, ts) == n,
    decreases members.len(),
{
    if n > 0 {
        let d = members.drop_first();
        assert(!text::str_lt(ts, turns[members[0] as int].ts@));
        if n < members.len() {
            assert(d[n - 1] == members[n]);
        }
        assert forall|j: int| 0 <= j < n - 1 implies !text::str_lt(
            ts,
            turns[(#[trigger] d[j]) as int].ts@,
        ) by {
            assert(d[j] == members[j + 1]);
        }
        lemma_lead(turns, d, ts, n - 1);
    }
}

proof fn lemma_pick_order<T>(s: Seq<T>, p: spec_fn(T) -> bool, k: int, l: int) -> (r: (int, int))
    requires
        0 <= k < l < streaks::pick(s, p).len(),
    ensures
        0 <= r.0 < r.1 < s.len(),
        s[r.0] == streaks::pick(s, p)[k],
        s[r.1] == streaks::pick(s, p)[l],
    decreases s.len(),
{
    let d = s.drop_last();
    let rest = streaks::pick(d, p);
    if l < rest.len() {
        let r = lemma_pick_order(d, p, k, l);
        assert(d[r.0] == s[r.0] && d[r.1] == s[r.1]);
        r
    } else {
        laws::streaks::lemma_pick_both(d, p, rest[k]);
        assert(rest.contains(rest[k]));
        let i = choose|i: int| 0 <= i < d.len() && d[i] == rest[k];
        assert(s[i] == rest[k]);
        (i, s.len() - 1)
    }
}

/// The attempts stand in the order of the reports that they come from.
pub proof fn lemma_attempts_in_order(
    events: Seq<ToolResultEventRecord>,
    at: Seq<usize>,
    k: int,
    l: int,
)
    requires
        at.len() <= usize::MAX,
        0 <= k < l < attempts::terminal_reports(events, at).len(),
    ensures
        ({
            let a = attempts::terminal_reports(events, at)[k];
            let b = attempts::terminal_reports(events, at)[l];
            precedes(events, a, b) || (events[a as int].event_index
                == events[b as int].event_index && time(events[a as int]) == time(
                events[b as int],
            ) && events[a as int].tool_use_id@ == events[b as int].tool_use_id@)
        }),
{
    let last = attempts::last_reports(events, attempts::chronological(events, at));
    let ch = attempts::chronological(events, last);
    let r = lemma_pick_order(
        ch,
        |p: usize| events[p as int].status != ToolResultStatus::Running,
        k,
        l,
    );
    let lt = attempts::event_order(events);
    lemma_order_is_weak(events);
    order::lemma_sort_in_order(last, lt);
    assert(!lt(ch[r.1], ch[r.0]));
    lemma_three(events[ch[r.0] as int], events[ch[r.1] as int], events[ch[r.0] as int]);
}

} // verus!
