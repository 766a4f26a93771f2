//! Tool calls with their outcomes, from the turns or from reports.

use crate::groups;
use crate::order;
use crate::order::Ordered;
use crate::records::{
    ToolCall, ToolResultEventRecord, ToolResultEventSource, ToolResultStatus, TurnRecord,
};
use crate::sessions;
use crate::streaks;
use crate::streaks::{Attempt, AttemptView, Outcome};
use crate::text;
use vstd::prelude::*;

verus! {

/// The call at `c`, with the outcome that the turn says.
pub open spec fn call_attempt(turns: Seq<TurnRecord>, c: (int, int)) -> AttemptView {
    let t = turns[c.0];
    let call = t.tool_calls@[c.1];
    AttemptView {
        outcome: if call.is_error == Some(true) {
            Outcome::Errored
        } else {
            Outcome::Other
        },
        tool: call.name@,
        target: text::opt_view(call.target),
        args_hash: Some(call.args_hash@),
        call_id: Some(call.id@),
        tool_use_id: call.id@,
        turn_index: t.turn_index,
        turn: Some(c.0 as usize),
        source: ToolResultEventSource::ToolResult,
    }
}

/// The calls of the turns at `members` with the outcomes that the turns say.
pub open spec fn call_attempts(turns: Seq<TurnRecord>, members: Seq<usize>) -> Seq<AttemptView> {
    sessions::calls_of(turns, members).map_values(|c: (int, int)| call_attempt(turns, c))
}

/// The calls of the turns at `members` with the outcomes that the turns say.
pub fn attempts_from_calls(turns: &[TurnRecord], members: &Vec<usize>) -> (r: Vec<Attempt>)
    requires
        forall|i: int| 0 <= i < members@.len() ==> (#[trigger] members@[i]) < turns@.len(),
    ensures
        streaks::attempt_views(r@) == call_attempts(turns@, members@),
        streaks::turns_inside(streaks::attempt_views(r@), turns@.len()),
{
    let calls = sessions::flatten_tool_calls(turns, members);
    let ghost all = sessions::calls_of(turns@, members@);
    proof {
        sessions::lemma_calls_inside(turns@, members@);
    }
    let mut out: Vec<Attempt> = Vec::new();
    let mut i: usize = 0;
    while i < calls.len()
        invariant
            i <= calls@.len(),
            all == sessions::call_views(calls@),
            forall|i: int|
                0 <= i < all.len() ==> 0 <= (#[trigger] all[i]).0 < turns@.len() && 0 <= all[i].1
                    < turns@[all[i].0].tool_calls@.len(),
            out@.len() == i,
            forall|k: int| 0 <= k < i ==> (#[trigger] out@[k])@ == call_attempt(turns@, all[k]),
            forall|k: int|
                0 <= k < i && (#[trigger] out@[k]).turn is Some ==> out@[k].turn->Some_0
                    < turns@.len(),
        decreases calls@.len() - i,
    {
        let (m, j) = calls[i];
        assert(all[i as int] == (m as int, j as int));
        let t = &turns[m];
        let call = &t.tool_calls[j];
        let failed = match call.is_error {
            Some(b) => b,
            None => false,
        };
        out.push(
            Attempt {
                outcome: if failed {
                    Outcome::Errored
                } else {
                    Outcome::Other
                },
                tool: call.name.clone(),
                target: text::clone_opt(&call.target),
                args_hash: Some(call.args_hash.clone()),
                call_id: Some(call.id.clone()),
                tool_use_id: call.id.clone(),
                turn_index: t.turn_index,
                turn: Some(m),
                source: ToolResultEventSource::ToolResult,
            },
        );
        i = i + 1;
    }
    proof {
        let v = streaks::attempt_views(out@);
        assert(v =~= call_attempts(turns@, members@));
        assert forall|k: int| 0 <= k < v.len() && (#[trigger] v[k]).turn is Some implies
            v[k].turn->Some_0 < turns@.len() by {
            assert(out@[k].turn == v[k].turn);
        }
    }
    out
}

/// The time of a report, empty where it has none.
pub open spec fn time_of(ts: Option<String>) -> Seq<char> {
    match ts {
        Some(s) => s@,
        None => Seq::empty(),
    }
}

/// The order of reports: by index, then by time, then by the id of the call.
pub open spec fn report_before(
    i: u64,
    its: Option<String>,
    iid: Seq<char>,
    j: u64,
    jts: Option<String>,
    jid: Seq<char>,
) -> bool {
    if i != j {
        i < j
    } else if time_of(its) != time_of(jts) {
        text::str_lt(time_of(its), time_of(jts))
    } else {
        text::str_lt(iid, jid)
    }
}

/// The order of the reports at two positions.
pub open spec fn event_order(events: Seq<ToolResultEventRecord>) -> spec_fn(usize, usize) -> bool {
    |a: usize, b: usize|
        report_before(
            events[a as int].event_index,
            events[a as int].ts,
            events[a as int].tool_use_id@,
            events[b as int].event_index,
            events[b as int].ts,
            events[b as int].tool_use_id@,
        )
}

/// The reports at `at` in their order.
pub open spec fn chronological(events: Seq<ToolResultEventRecord>, at: Seq<usize>) -> Seq<usize> {
    order::stable_sort(at, event_order(events))
}

struct ReportSlot {
    index: u64,
    ts: Option<String>,
    id: String,
    at: usize,
}

fn time_text(o: &Option<String>) -> (r: String)
    ensures
        r@ == time_of(*o),
{
    match o {
        Some(s) => s.clone(),
        None => String::new(),
    }
}

impl Ordered for ReportSlot {
    closed spec fn before(self, other: Self) -> bool {
        report_before(self.index, self.ts, self.id@, other.index, other.ts, other.id@)
    }

    fn is_before(&self, other: &Self) -> (r: bool) {
        if self.index != other.index {
            return self.index < other.index;
        }
        let a = time_text(&self.ts);
        let b = time_text(&other.ts);
        if !text::same(a.as_str(), b.as_str()) {
            return text::less(a.as_str(), b.as_str());
        }
        text::less(self.id.as_str(), other.id.as_str())
    }
}

/// All positions are inside.
pub open spec fn inside(at: Seq<usize>, n: nat) -> bool {
    forall|i: int| 0 <= i < at.len() ==> (#[trigger] at[i]) < n
}

fn sort_events(events: &[ToolResultEventRecord], at: &Vec<usize>) -> (r: Vec<usize>)
    requires
        inside(at@, events@.len()),
    ensures
        r@ == chronological(events@, at@),
        inside(r@, events@.len()),
{
    let mut slots: Vec<ReportSlot> = Vec::new();
    let mut i: usize = 0;
    let ghost slot = |p: usize|
        ReportSlot {
            index: events@[p as int].event_index,
            ts: events@[p as int].ts,
            id: events@[p as int].tool_use_id,
            at: p,
        };
    while i < at.len()
        invariant
            i <= at@.len(),
            inside(at@, events@.len()),
            slots@.len() == i,
            slot == (|p: usize|
                ReportSlot {
                    index: events@[p as int].event_index,
                    ts: events@[p as int].ts,
                    id: events@[p as int].tool_use_id,
                    at: p,
                }),
            forall|k: int| 0 <= k < i ==> #[trigger] slots@[k] == slot(at@[k]),
        decreases at@.len() - i,
    {
        let e = &events[at[i]];
        slots.push(
            ReportSlot {
                index: e.event_index,
                ts: text::clone_opt(&e.ts),
                id: e.tool_use_id.clone(),
                at: at[i],
            },
        );
        i = i + 1;
    }
    let ghost given = slots@;
    let sorted = order::sort(slots);
    let mut out: Vec<usize> = Vec::new();
    let mut j: usize = 0;
    while j < sorted.len()
        invariant
            j <= sorted@.len(),
            out@.len() == j,
            forall|k: int| 0 <= k < j ==> #[trigger] out@[k] == sorted@[k].at,
        decreases sorted@.len() - j,
    {
        out.push(sorted[j].at);
        j = j + 1;
    }
    proof {
        assert(given =~= at@.map_values(slot));
        order::lemma_sort_map(at@, slot, event_order(events@), order::order_of::<ReportSlot>());
        assert(sorted@ == chronological(events@, at@).map_values(slot));
        assert(out@ =~= chronological(events@, at@));
        lemma_chronological_inside(events@, at@);
    }
    out
}

proof fn lemma_chronological_inside(events: Seq<ToolResultEventRecord>, at: Seq<usize>)
    requires
        inside(at, events.len()),
    ensures
        inside(chronological(events, at), events.len()),
{
    let s = chronological(events, at);
    order::lemma_sort_multiset(at, event_order(events));
    at.to_multiset_ensures();
    s.to_multiset_ensures();
    assert forall|i: int| 0 <= i < s.len() implies (#[trigger] s[i]) < events.len() by {
        assert(s.contains(s[i]));
        assert(at.to_multiset().count(s[i]) > 0);
        let k = choose|k: int| 0 <= k < at.len() && at[k] == s[i];
        assert(at[k] < events.len());
    }
}

/// The ids of the calls that the reports are on.
pub open spec fn report_ids(events: Seq<ToolResultEventRecord>, at: Seq<usize>) -> Seq<Seq<char>> {
    at.map_values(|p: usize| events[p as int].tool_use_id@)
}

/// The last report on each call, in the order in which the calls are first
/// reported on.
pub open spec fn last_reports(events: Seq<ToolResultEventRecord>, at: Seq<usize>) -> Seq<usize> {
    groups::groups_of(report_ids(events, at)).map_values(
        |g: (Seq<char>, Seq<usize>)| at[g.1.last() as int],
    )
}

/// The final report on each call that has come to an end, in order.
pub open spec fn terminal_reports(events: Seq<ToolResultEventRecord>, at: Seq<usize>) -> Seq<usize> {
    streaks::pick(
        chronological(events, last_reports(events, chronological(events, at))),
        |p: usize| events[p as int].status != ToolResultStatus::Running,
    )
}

fn find_last_reports(events: &[ToolResultEventRecord], at: &Vec<usize>) -> (r: Vec<usize>)
    requires
        inside(at@, events@.len()),
    ensures
        r@ == last_reports(events@, at@),
        inside(r@, events@.len()),
{
    let ghost ids = report_ids(events@, at@);
    let mut keys: Vec<String> = Vec::new();
    let mut i: usize = 0;
    while i < at.len()
        invariant
            i <= at@.len(),
            inside(at@, events@.len()),
            keys@.len() == i,
            forall|k: int| 0 <= k < i ==> (#[trigger] keys@[k])@ == events@[at@[k] as int].tool_use_id@,
        decreases at@.len() - i,
    {
        keys.push(events[at[i]].tool_use_id.clone());
        i = i + 1;
    }
    assert(text::views(keys@) =~= ids);
    let found = groups::group_by_key(&keys);
    let n: usize = at.len();
    let ghost g = groups::groups_of(ids);
    let mut out: Vec<usize> = Vec::new();
    let mut j: usize = 0;
    while j < found.len()
        invariant
            j <= found@.len(),
            n == at@.len() == ids.len(),
            inside(at@, events@.len()),
            g == groups::groups_of(ids),
            g == groups::group_views(found@),
            out@.len() == j,
            forall|k: int| 0 <= k < j ==> #[trigger] out@[k] == at@[g[k].1.last() as int],
            inside(out@, events@.len()),
        decreases found@.len() - j,
    {
        proof {
            assert(groups::group_views(found@).len() == found@.len());
            let key = groups::first_seen(ids)[j as int];
            assert(g[j as int] == (key, groups::positions(ids, key)));
            assert(groups::group_views(found@)[j as int] == (
                found@[j as int].key@,
                found@[j as int].members@,
            ));
            groups::lemma_first_seen(ids);
            assert(groups::first_seen(ids).contains(key));
            groups::lemma_positions(ids, key);
            assert(found@[j as int].members@.len() > 0);
            let p = groups::positions(ids, key);
            assert(p[p.len() - 1] < ids.len());
        }
        let m = &found[j].members;
        let last: usize = m[m.len() - 1];
        out.push(at[last]);
        j = j + 1;
    }
    assert(out@ =~= last_reports(events@, at@));
    out
}

/// The final report on each call that has come to an end.
pub fn find_terminal_reports(events: &[ToolResultEventRecord], at: &Vec<usize>) -> (r: Vec<usize>)
    requires
        inside(at@, events@.len()),
    ensures
        r@ == terminal_reports(events@, at@),
        inside(r@, events@.len()),
{
    let sorted = sort_events(events, at);
    let last = find_last_reports(events, &sorted);
    let again = sort_events(events, &last);
    let ghost p = |p: usize| events@[p as int].status != ToolResultStatus::Running;
    let mut out: Vec<usize> = Vec::new();
    let mut i: usize = 0;
    assert(again@.take(0) =~= Seq::<usize>::empty());
    while i < again.len()
        invariant
            i <= again@.len(),
            inside(again@, events@.len()),
            inside(out@, events@.len()),
            p == (|p: usize| events@[p as int].status != ToolResultStatus::Running),
            out@ == streaks::pick(again@.take(i as int), p),
        decreases again@.len() - i,
    {
        assert(again@.take(i + 1).drop_last() =~= again@.take(i as int));
        assert(again@.take(i + 1).last() == again@[i as int]);
        if events[again[i]].status != ToolResultStatus::Running {
            out.push(again[i]);
        }
        i = i + 1;
    }
    assert(again@.take(i as int) =~= again@);
    out
}

/// The last of the calls with the id `id`.
pub open spec fn last_call(
    turns: Seq<TurnRecord>,
    calls: Seq<(int, int)>,
    id: Seq<char>,
) -> Option<(int, int)>
    decreases calls.len(),
{
    if calls.len() == 0 {
        None
    } else if turns[calls.last().0].tool_calls@[calls.last().1].id@ == id {
        Some(calls.last())
    } else {
        last_call(turns, calls.drop_last(), id)
    }
}

fn find_last_call(turns: &[TurnRecord], calls: &Vec<(usize, usize)>, id: &str) -> (r: Option<
    (usize, usize),
>)
    requires
        forall|i: int|
            0 <= i < calls@.len() ==> (#[trigger] calls@[i]).0 < turns@.len() && calls@[i].1
                < turns@[calls@[i].0 as int].tool_calls@.len(),
    ensures
        (match r {
            Some(c) => Some((c.0 as int, c.1 as int)),
            None => None,
        }) == last_call(turns@, sessions::call_views(calls@), id@),
        r is Some ==> r->Some_0.0 < turns@.len() && r->Some_0.1
            < turns@[r->Some_0.0 as int].tool_calls@.len(),
{
    let ghost all = sessions::call_views(calls@);
    let mut i: usize = calls.len();
    assert(all.take(i as int) =~= all);
    while i > 0
        invariant
            i <= calls@.len(),
            all == sessions::call_views(calls@),
            forall|i: int|
                0 <= i < calls@.len() ==> (#[trigger] calls@[i]).0 < turns@.len() && calls@[i].1
                    < turns@[calls@[i].0 as int].tool_calls@.len(),
            last_call(turns@, all, id@) == last_call(turns@, all.take(i as int), id@),
        decreases i,
    {
        assert(all.take(i as int).drop_last() =~= all.take(i - 1));
        let (m, j) = calls[i - 1];
        assert(all[i - 1] == (m as int, j as int));
        if text::same(turns[m].tool_calls[j].id.as_str(), id) {
            return Some((m, j));
        }
        i = i - 1;
    }
    None
}

/// The last of the turns at `members` with the message id `id`.
pub open spec fn turn_of_message(
    turns: Seq<TurnRecord>,
    members: Seq<usize>,
    id: Seq<char>,
) -> Option<usize>
    decreases members.len(),
{
    if members.len() == 0 {
        None
    } else if turns[members.last() as int].message_id@ == id {
        Some(members.last())
    } else {
        turn_of_message(turns, members.drop_last(), id)
    }
}

/// How many of the turns at `members` lead up to the time `ts` without one
/// after it in between.
pub open spec fn lead(turns: Seq<TurnRecord>, members: Seq<usize>, ts: Seq<char>) -> nat
    decreases members.len(),
{
    if members.len() == 0 || text::str_lt(ts, turns[members[0] as int].ts@) {
        0
    } else {
        1 + lead(turns, members.drop_first(), ts)
    }
}

/// The turn that a report belongs to where its call is not known: the one with
/// its message id, else the last one up to its time, else the first one.
pub open spec fn turn_of_event(
    turns: Seq<TurnRecord>,
    members: Seq<usize>,
    e: ToolResultEventRecord,
) -> Option<usize> {
    let by_message = match e.message_id {
        Some(m) => turn_of_message(turns, members, m@),
        None => None,
    };
    if by_message is Some {
        by_message
    } else {
        match e.ts {
            Some(ts) => if members.len() == 0 {
                None
            } else {
                let k = lead(turns, members, ts@);
                Some(
                    members[if k > 0 {
                        k - 1
                    } else {
                        0
                    }],
                )
            },
            None => None,
        }
    }
}

fn find_turn_of_message(turns: &[TurnRecord], members: &Vec<usize>, id: &str) -> (r: Option<usize>)
    requires
        inside(members@, turns@.len()),
    ensures
        r == turn_of_message(turns@, members@, id@),
        r is Some ==> r->Some_0 < turns@.len(),
{
    let mut i: usize = members.len();
    assert(members@.take(i as int) =~= members@);
    while i > 0
        invariant
            i <= members@.len(),
            inside(members@, turns@.len()),
            turn_of_message(turns@, members@, id@) == turn_of_message(
                turns@,
                members@.take(i as int),
                id@,
            ),
        decreases i,
    {
        assert(members@.take(i as int).drop_last() =~= members@.take(i - 1));
        let m: usize = members[i - 1];
        if text::same(turns[m].message_id.as_str(), id) {
            return Some(m);
        }
        i = i - 1;
    }
    None
}

fn count_lead(turns: &[TurnRecord], members: &Vec<usize>, ts: &str) -> (r: usize)
    requires
        inside(members@, turns@.len()),
    ensures
        r == lead(turns@, members@, ts@),
        r <= members@.len(),
{
    let mut i: usize = 0;
    assert(members@.skip(0) =~= members@);
    while i < members.len()
        invariant
            i <= members@.len(),
            inside(members@, turns@.len()),
            lead(turns@, members@, ts@) == i + lead(turns@, members@.skip(i as int), ts@),
        decreases members@.len() - i,
    {
        assert(members@.skip(i as int)[0] == members@[i as int]);
        if text::less(ts, turns[members[i]].ts.as_str()) {
            return i;
        }
        assert(members@.skip(i as int).drop_first() =~= members@.skip(i + 1));
        i = i + 1;
    }
    i
}

fn find_turn_for_event(turns: &[TurnRecord], members: &Vec<usize>, e: &ToolResultEventRecord) -> (r:
    Option<usize>)
    requires
        inside(members@, turns@.len()),
    ensures
        r == turn_of_event(turns@, members@, *e),
        r is Some ==> r->Some_0 < turns@.len(),
{
    match &e.message_id {
        Some(m) => {
            let found = find_turn_of_message(turns, members, m.as_str());
            if found.is_some() {
                return found;
            }
        },
        None => {},
    }
    match &e.ts {
        Some(ts) => {
            if members.len() == 0 {
                return None;
            }
            let k: usize = count_lead(turns, members, ts.as_str());
            let at: usize = if k > 0 {
                k - 1
            } else {
                0
            };
            assert(members@[at as int] < turns@.len());
            Some(members[at])
        },
        None => None,
    }
}

/// The tool that a report names: that of its call, or one for its source.
pub open spec fn display_name(e: ToolResultEventRecord, call: Option<ToolCall>) -> Seq<char> {
    match call {
        Some(c) => c.name@,
        None => match e.event_source {
            ToolResultEventSource::SubagentNotification => "Subagent"@,
            ToolResultEventSource::FunctionCallOutput => "FunctionCall"@,
            ToolResultEventSource::QueueEvent => "QueueEvent"@,
            ToolResultEventSource::ProgressEvent => "ProgressEvent"@,
            ToolResultEventSource::ToolResult => "Tool"@,
        },
    }
}

/// The outcome that a report gives.
pub open spec fn outcome_of(s: ToolResultStatus) -> Outcome {
    match s {
        ToolResultStatus::Errored => Outcome::Errored,
        ToolResultStatus::Cancelled => Outcome::Cancelled,
        _ => Outcome::Other,
    }
}

/// The call that the report `e` is on, with the outcome that it says.
pub open spec fn event_attempt(
    turns: Seq<TurnRecord>,
    members: Seq<usize>,
    e: ToolResultEventRecord,
) -> AttemptView {
    let at = last_call(turns, sessions::calls_of(turns, members), e.tool_use_id@);
    let call = match at {
        Some(c) => Some(turns[c.0].tool_calls@[c.1]),
        None => None,
    };
    let turn = match at {
        Some(c) => Some(c.0 as usize),
        None => turn_of_event(turns, members, e),
    };
    AttemptView {
        outcome: outcome_of(e.status),
        tool: display_name(e, call),
        target: match call {
            Some(c) => text::opt_view(c.target),
            None => None,
        },
        args_hash: match call {
            Some(c) => Some(c.args_hash@),
            None => None,
        },
        call_id: match call {
            Some(c) => Some(c.id@),
            None => None,
        },
        tool_use_id: e.tool_use_id@,
        turn_index: match turn {
            Some(t) => turns[t as int].turn_index,
            None => e.event_index,
        },
        turn,
        source: e.event_source,
    }
}

/// The calls of a session with the outcomes that the reports at `at` say: the
/// final report on each call that has come to an end, in order.
pub open spec fn event_attempts(
    turns: Seq<TurnRecord>,
    members: Seq<usize>,
    events: Seq<ToolResultEventRecord>,
    at: Seq<usize>,
) -> Seq<AttemptView> {
    terminal_reports(events, at).map_values(
        |p: usize| event_attempt(turns, members, events[p as int]),
    )
}

fn display_tool_name(e: &ToolResultEventRecord) -> (r: String)
    ensures
        r@ == display_name(*e, None),
{
    match e.event_source {
        ToolResultEventSource::SubagentNotification => "Subagent".to_owned(),
        ToolResultEventSource::FunctionCallOutput => "FunctionCall".to_owned(),
        ToolResultEventSource::QueueEvent => "QueueEvent".to_owned(),
        ToolResultEventSource::ProgressEvent => "ProgressEvent".to_owned(),
        ToolResultEventSource::ToolResult => "Tool".to_owned(),
    }
}

fn make_event_attempt(
    turns: &[TurnRecord],
    members: &Vec<usize>,
    calls: &Vec<(usize, usize)>,
    e: &ToolResultEventRecord,
) -> (r: Attempt)
    requires
        inside(members@, turns@.len()),
        sessions::call_views(calls@) == sessions::calls_of(turns@, members@),
        forall|i: int|
            0 <= i < calls@.len() ==> (#[trigger] calls@[i]).0 < turns@.len() && calls@[i].1
                < turns@[calls@[i].0 as int].tool_calls@.len(),
    ensures
        r@ == event_attempt(turns@, members@, *e),
        r.turn is Some ==> r.turn->Some_0 < turns@.len(),
{
    let outcome = match e.status {
        ToolResultStatus::Errored => Outcome::Errored,
        ToolResultStatus::Cancelled => Outcome::Cancelled,
        _ => Outcome::Other,
    };
    match find_last_call(turns, calls, e.tool_use_id.as_str()) {
        Some(c) => {
            let t = &turns[c.0];
            let call = &t.tool_calls[c.1];
            Attempt {
                outcome,
                tool: call.name.clone(),
                target: text::clone_opt(&call.target),
                args_hash: Some(call.args_hash.clone()),
                call_id: Some(call.id.clone()),
                tool_use_id: e.tool_use_id.clone(),
                turn_index: t.turn_index,
                turn: Some(c.0),
                source: e.event_source,
            }
        },
        None => {
            let turn = find_turn_for_event(turns, members, e);
            Attempt {
                outcome,
                tool: display_tool_name(e),
                target: None,
                args_hash: None,
                call_id: None,
                tool_use_id: e.tool_use_id.clone(),
                turn_index: match turn {
                    Some(t) => turns[t].turn_index,
                    None => e.event_index,
                },
                turn,
                source: e.event_source,
            }
        },
    }
}

/// The calls of a session with the outcomes that the reports at `at` say: the
/// final report on each call that has come to an end, in order.
pub fn attempts_from_events(
    turns: &[TurnRecord],
    members: &Vec<usize>,
    events: &[ToolResultEventRecord],
    at: &Vec<usize>,
) -> (r: Vec<Attempt>)
    requires
        inside(members@, turns@.len()),
        inside(at@, events@.len()),
    ensures
        streaks::attempt_views(r@) == event_attempts(turns@, members@, events@, at@),
        streaks::turns_inside(streaks::attempt_views(r@), turns@.len()),
{
    let calls = sessions::flatten_tool_calls(turns, members);
    proof {
        sessions::lemma_calls_inside(turns@, members@);
        assert forall|i: int| 0 <= i < calls@.len() implies (#[trigger] calls@[i]).0 < turns@.len()
            && calls@[i].1 < turns@[calls@[i].0 as int].tool_calls@.len() by {
            assert(sessions::call_views(calls@)[i] == (
                calls@[i].0 as int,
                calls@[i].1 as int,
            ));
        }
    }
    let reports = find_terminal_reports(events, at);
    let mut out: Vec<Attempt> = Vec::new();
    let mut i: usize = 0;
    while i < reports.len()
        invariant
            i <= reports@.len(),
            inside(members@, turns@.len()),
            inside(reports@, events@.len()),
            sessions::call_views(calls@) == sessions::calls_of(turns@, members@),
            forall|i: int|
                0 <= i < calls@.len() ==> (#[trigger] calls@[i]).0 < turns@.len() && calls@[i].1
                    < turns@[calls@[i].0 as int].tool_calls@.len(),
            out@.len() == i,
            forall|k: int|
                0 <= k < i ==> (#[trigger] out@[k])@ == event_attempt(
                    turns@,
                    members@,
                    events@[reports@[k] as int],
                ),
            forall|k: int|
                0 <= k < i && (#[trigger] out@[k]).turn is Some ==> out@[k].turn->Some_0
                    < turns@.len(),
        decreases reports@.len() - i,
    {
        out.push(make_event_attempt(turns, members, &calls, &events[reports[i]]));
        i = i + 1;
    }
    proof {
        let v = streaks::attempt_views(out@);
        assert(v =~= event_attempts(turns@, members@, events@, at@));
        assert forall|k: int| 0 <= k < v.len() && (#[trigger] v[k]).turn is Some implies
            v[k].turn->Some_0 < turns@.len() by {
            assert(out@[k].turn == v[k].turn);
        }
    }
    out
}

/// A stretch of calls that is reported as a failure run is not reported as a
/// retry loop as well, where the turns themselves say how the calls came out.
pub proof fn lemma_run_is_no_loop(a: Seq<AttemptView>, i: int, j: int)
    requires
        0 <= i < streaks::failure_streaks(a, false).len(),
        0 <= j < streaks::retry_streaks(a).len(),
    ensures
        streaks::failure_streaks(a, false)[i] != streaks::retry_streaks(a)[j],
{
    let kind = streaks::StreakKind::SameCallErrored;
    let p = |s: (int, int)| streaks::is_run(streaks::members_of(a, s), false);
    let q = |s: (int, int)| s.1 - s.0 >= streaks::MIN_RETRY_LEN;
    lemma_pick(streaks::streaks(streaks::StreakKind::Errored, a), p, i);
    lemma_pick(streaks::streaks(kind, a), q, j);
    streaks::lemma_streaks(streaks::kept(kind, a), streaks::joined(kind, a));
    let s = streaks::retry_streaks(a)[j];
    let all = streaks::streaks(kind, a);
    let k = choose|k: int| 0 <= k < all.len() && all[k] == s;
    assert(streaks::is_streak(all[k], streaks::kept(kind, a), streaks::joined(kind, a)));
    let m = streaks::members_of(a, s);
    if streaks::failure_streaks(a, false)[i] == s {
        assert(p(s));
        assert forall|n: int| 0 <= n < m.len() implies streaks::attempt_key(#[trigger] m[n])
            == streaks::attempt_key(m[0]) by {
            assert(m[n] == a[s.0 + n]);
            assert(m[0] == a[s.0]);
            assert(streaks::kept(kind, a)[s.0 + n]);
            assert(streaks::kept(kind, a)[s.0]);
            if n > 0 {
                assert(streaks::joined(kind, a)(s.0, s.0 + n));
            }
        }
        assert(streaks::one_key(m));
    }
}

proof fn lemma_pick<T>(s: Seq<T>, p: spec_fn(T) -> bool, i: int)
    requires
        0 <= i < streaks::pick(s, p).len(),
    ensures
        p(streaks::pick(s, p)[i]),
        s.contains(streaks::pick(s, p)[i]),
    decreases s.len(),
{
    if s.len() > 0 {
        let d = s.drop_last();
        if i < streaks::pick(d, p).len() {
            lemma_pick(d, p, i);
            let k = choose|k: int| 0 <= k < d.len() && d[k] == streaks::pick(d, p)[i];
            assert(s[k] == d[k]);
        } else {
            assert(s[s.len() - 1] == s.last());
        }
    }
}

} // verus!
