//! The sizes of tool results.

use crate::hotspots;
use crate::hotspots::{AttributionMethod, BySession, SessionAttribution};
use crate::records::{
    ContentKind, ContentRecord, ToolResultEventRecord, ToolResultEventSource, TurnRecord,
    UserTurnBlock, UserTurnBlockKind, UserTurnRecord,
};
use crate::sessions;
use vstd::prelude::*;

verus! {

/// Whether the block is a tool result for the call.
pub open spec fn sizes(b: UserTurnBlock, id: Seq<char>) -> bool {
    b.kind == UserTurnBlockKind::ToolResult && (b.tool_use_id matches Some(s) && s@ == id)
}

/// Whether the record captures a result of the call.
pub open spec fn captures(c: ContentRecord, id: Seq<char>) -> bool {
    c.kind == ContentKind::ToolResult && (c.tool_result matches Some(tr) && tr.tool_use_id@ == id)
}

/// Whether the report is on the call, and is its own output.
pub open spec fn reports(e: ToolResultEventRecord, id: Seq<char>) -> bool {
    &&& e.tool_use_id@ == id
    &&& e.event_source == ToolResultEventSource::ToolResult || e.event_source
        == ToolResultEventSource::FunctionCallOutput
}

/// The length of a text in UTF-16.
pub open spec fn units(s: Seq<char>) -> int {
    s.fold_left(
        0int,
        |n: int, c: char|
            if c as int >= 0x10000 {
                n + 2
            } else {
                n + 1
            },
    )
}

proof fn lemma_units(s: Seq<char>)
    ensures
        units(s) == hotspots::utf16_len(s),
        hotspots::utf16_len(s) <= 2 * s.len(),
    decreases s.len(),
{
    if s.len() > 0 {
        lemma_units(s.drop_last());
    }
}

/// Whether the records are those that are kept under the session first.
pub open spec fn kept<T>(lists: Seq<BySession<T>>, id: Seq<char>, records: Seq<T>) -> bool {
    ||| exists|at: int|
        0 <= at < lists.len() && (#[trigger] lists[at]).session_id@ == id && records
            == lists[at].records@ && forall|k: int|
            0 <= k < at ==> (#[trigger] lists[k]).session_id@ != id
    ||| records.len() == 0 && forall|k: int|
        0 <= k < lists.len() ==> (#[trigger] lists[k]).session_id@ != id
}

proof fn lemma_slot<T>(lists: Seq<BySession<T>>, id: Seq<char>, at: int)
    requires
        0 <= at <= lists.len(),
        at < lists.len() ==> lists[at].session_id@ == id,
        forall|k: int| 0 <= k < at ==> (#[trigger] lists[k]).session_id@ != id,
    ensures
        hotspots::session_slot(lists, id) == at,
    decreases lists.len(),
{
    if at > 0 {
        let d = lists.drop_first();
        assert(lists[0].session_id@ != id);
        if at < lists.len() {
            assert(d[at - 1] == lists[at]);
        }
        assert forall|k: int| 0 <= k < at - 1 implies (#[trigger] d[k]).session_id@ != id by {
            assert(d[k] == lists[k + 1]);
        }
        lemma_slot(d, id, at - 1);
    }
}

/// What is kept under a session is found under it.
pub proof fn lemma_kept<T>(lists: Seq<BySession<T>>, id: Seq<char>, records: Seq<T>)
    requires
        kept(lists, id, records),
    ensures
        hotspots::records_of(lists, id) == records,
{
    if forall|k: int| 0 <= k < lists.len() ==> (#[trigger] lists[k]).session_id@ != id {
        lemma_slot(lists, id, lists.len() as int);
    } else {
        let at = choose|at: int|
            0 <= at < lists.len() && (#[trigger] lists[at]).session_id@ == id && records
                == lists[at].records@ && forall|k: int|
                0 <= k < at ==> (#[trigger] lists[k]).session_id@ != id;
        lemma_slot(lists, id, at);
    }
}

proof fn lemma_block(blocks: Seq<UserTurnBlock>, id: Seq<char>, q: int)
    requires
        -1 <= q < blocks.len(),
        q >= 0 ==> sizes(blocks[q], id),
        forall|k: int| q < k < blocks.len() ==> !sizes(#[trigger] blocks[k], id),
    ensures
        hotspots::block_size(blocks, id) == (if q >= 0 {
            Some(blocks[q].approx_tokens)
        } else {
            None
        }),
    decreases blocks.len(),
{
    if blocks.len() > 0 {
        let d = blocks.drop_last();
        let l = blocks[blocks.len() - 1];
        assert(hotspots::block_of(l, id) == sizes(l, id));
        if q < blocks.len() - 1 {
            assert forall|k: int| q < k < d.len() implies !sizes(#[trigger] d[k], id) by {
                assert(d[k] == blocks[k]);
            }
            lemma_block(d, id, q);
        }
    }
}

/// Whether the turn sizes the call.
pub open spec fn turn_sizes(u: UserTurnRecord, id: Seq<char>) -> bool {
    exists|k: int| 0 <= k < u.blocks@.len() && sizes(#[trigger] u.blocks@[k], id)
}

proof fn lemma_user(users: Seq<UserTurnRecord>, id: Seq<char>, p: int, q: int)
    requires
        -1 <= p < users.len(),
        p >= 0 ==> 0 <= q < users[p].blocks@.len() && sizes(users[p].blocks@[q], id) && forall|k: int|
            q < k < users[p].blocks@.len() ==> !sizes(#[trigger] users[p].blocks@[k], id),
        forall|k: int| p < k < users.len() ==> !turn_sizes(#[trigger] users[k], id),
    ensures
        hotspots::user_size(users, id) == (if p >= 0 {
            Some(users[p].blocks@[q].approx_tokens)
        } else {
            None
        }),
    decreases users.len(),
{
    if users.len() > 0 {
        let d = users.drop_last();
        let l = users[users.len() - 1];
        if p == users.len() - 1 {
            lemma_block(l.blocks@, id, q);
        } else {
            assert(!turn_sizes(l, id));
            lemma_block(l.blocks@, id, -1);
            assert forall|k: int| p < k < d.len() implies !turn_sizes(#[trigger] d[k], id) by {
                assert(d[k] == users[k]);
            }
            lemma_user(d, id, p, q);
        }
    }
}

proof fn lemma_content(content: Seq<ContentRecord>, id: Seq<char>, p: int)
    requires
        -1 <= p < content.len(),
        p >= 0 ==> captures(content[p], id),
        forall|k: int| p < k < content.len() ==> !captures(#[trigger] content[k], id),
    ensures
        p < 0 ==> hotspots::content_size(content, id) is None,
        p >= 0 ==> hotspots::content_size(content, id) == Some(
            ((hotspots::utf16_len(content[p].tool_result->Some_0.content@) + 3) / 4) as u64,
        ),
    decreases content.len(),
{
    if content.len() > 0 {
        let d = content.drop_last();
        let l = content[content.len() - 1];
        assert(hotspots::result_text(l, id) is Some == captures(l, id));
        if p < content.len() - 1 {
            assert forall|k: int| p < k < d.len() implies !captures(#[trigger] d[k], id) by {
                assert(d[k] == content[k]);
            }
            lemma_content(d, id, p);
        }
    }
}

/// The row of a call weighs what the last block of a user turn that is its
/// result says.
pub proof fn lemma_size_from_user_turns(
    s: SessionAttribution,
    turns: Seq<TurnRecord>,
    priced: Seq<bool>,
    content: Seq<BySession<ContentRecord>>,
    users: Seq<BySession<UserTurnRecord>>,
    events: Seq<BySession<ToolResultEventRecord>>,
    own: Seq<UserTurnRecord>,
    i: int,
    p: int,
    q: int,
)
    requires
        hotspots::session_shared(s, turns, priced, content, users, events),
        kept(users, s.session_id@, own),
        0 <= i < s.rows@.len(),
        0 <= p < own.len(),
        0 <= q < own[p].blocks@.len(),
        sizes(own[p].blocks@[q], s.rows@[i].tool_use_id@),
        forall|k: int|
            q < k < own[p].blocks@.len() ==> !sizes(
                #[trigger] own[p].blocks@[k],
                s.rows@[i].tool_use_id@,
            ),
        forall|k: int|
            p < k < own.len() ==> !turn_sizes(#[trigger] own[k], s.rows@[i].tool_use_id@),
    ensures
        s.rows@[i].result_tokens == own[p].blocks@[q].approx_tokens,
{
    lemma_kept(users, s.session_id@, own);
    lemma_user(own, s.rows@[i].tool_use_id@, p, q);
}

/// Where no user turn holds the result of a call, its row weighs a quarter,
/// rounded up, of the last result that was captured.
pub proof fn lemma_size_from_content(
    s: SessionAttribution,
    turns: Seq<TurnRecord>,
    priced: Seq<bool>,
    content: Seq<BySession<ContentRecord>>,
    users: Seq<BySession<UserTurnRecord>>,
    events: Seq<BySession<ToolResultEventRecord>>,
    own: Seq<UserTurnRecord>,
    captured: Seq<ContentRecord>,
    i: int,
    p: int,
)
    requires
        hotspots::session_shared(s, turns, priced, content, users, events),
        kept(users, s.session_id@, own),
        kept(content, s.session_id@, captured),
        0 <= i < s.rows@.len(),
        forall|k: int|
            0 <= k < own.len() ==> !turn_sizes(#[trigger] own[k], s.rows@[i].tool_use_id@),
        -1 <= p < captured.len(),
        p >= 0 ==> captures(captured[p], s.rows@[i].tool_use_id@)
            && units(captured[p].tool_result->Some_0.content@) <= u64::MAX,
        forall|k: int|
            p < k < captured.len() ==> !captures(
                #[trigger] captured[k],
                s.rows@[i].tool_use_id@,
            ),
    ensures
        p < 0 ==> s.rows@[i].result_tokens == 0,
        p >= 0 ==> ({
            let n = units(captured[p].tool_result->Some_0.content@);
            4 * s.rows@[i].result_tokens - 3 <= n <= 4 * s.rows@[i].result_tokens
        }),
{
    let id = s.rows@[i].tool_use_id@;
    lemma_kept(users, s.session_id@, own);
    lemma_kept(content, s.session_id@, captured);
    lemma_user(own, id, -1, 0);
    lemma_content(captured, id, p);
    if p >= 0 {
        lemma_units(captured[p].tool_result->Some_0.content@);
    }
}

proof fn lemma_first_report(events: Seq<ToolResultEventRecord>, id: Seq<char>, p: int)
    requires
        0 <= p < events.len(),
        reports(events[p], id),
    ensures
        events[p].output_bytes is Some && (forall|k: int|
            0 <= k < p && reports(#[trigger] events[k], id) ==> events[k].output_bytes is None)
            ==> hotspots::first_bytes(events, id) == events[p].output_bytes,
        events[p].output_truncated is Some && (forall|k: int|
            0 <= k < p && reports(#[trigger] events[k], id) ==> events[k].output_truncated is None)
            ==> hotspots::first_truncated(events, id) == events[p].output_truncated,
    decreases events.len(),
{
    let d = events.drop_last();
    if p < d.len() {
        assert(d[p] == events[p]);
        lemma_first_report(d, id, p);
    } else {
        if forall|k: int|
            0 <= k < p && reports(#[trigger] events[k], id) ==> events[k].output_bytes is None {
            assert forall|k: int|
                0 <= k < d.len() && reports(#[trigger] d[k], id) implies d[k].output_bytes is None by {
                assert(d[k] == events[k]);
            }
            lemma_no_bytes(d, id);
        }
        if forall|k: int|
            0 <= k < p && reports(#[trigger] events[k], id) ==> events[k].output_truncated is None {
            assert forall|k: int|
                0 <= k < d.len() && reports(
                    #[trigger] d[k],
                    id,
                ) implies d[k].output_truncated is None by {
                assert(d[k] == events[k]);
            }
            lemma_no_word(d, id);
        }
    }
}

proof fn lemma_no_bytes(events: Seq<ToolResultEventRecord>, id: Seq<char>)
    requires
        forall|k: int|
            0 <= k < events.len() && reports(#[trigger] events[k], id)
                ==> events[k].output_bytes is None,
    ensures
        hotspots::first_bytes(events, id) is None,
    decreases events.len(),
{
    if events.len() > 0 {
        let d = events.drop_last();
        assert forall|k: int|
            0 <= k < d.len() && reports(#[trigger] d[k], id) implies d[k].output_bytes is None by {
            assert(d[k] == events[k]);
        }
        lemma_no_bytes(d, id);
        let l = events[events.len() - 1];
        assert(reports(l, id) ==> l.output_bytes is None);
    }
}

proof fn lemma_no_word(events: Seq<ToolResultEventRecord>, id: Seq<char>)
    requires
        forall|k: int|
            0 <= k < events.len() && reports(#[trigger] events[k], id)
                ==> events[k].output_truncated is None,
    ensures
        hotspots::first_truncated(events, id) is None,
    decreases events.len(),
{
    if events.len() > 0 {
        let d = events.drop_last();
        assert forall|k: int|
            0 <= k < d.len() && reports(
                #[trigger] d[k],
                id,
            ) implies d[k].output_truncated is None by {
            assert(d[k] == events[k]);
        }
        lemma_no_word(d, id);
        let l = events[events.len() - 1];
        assert(reports(l, id) ==> l.output_truncated is None);
    }
}

/// The row of a call tells the bytes of its output, and whether they were cut,
/// as the first report on its own output that says so.
pub proof fn lemma_output_from_reports(
    s: SessionAttribution,
    turns: Seq<TurnRecord>,
    priced: Seq<bool>,
    content: Seq<BySession<ContentRecord>>,
    users: Seq<BySession<UserTurnRecord>>,
    events: Seq<BySession<ToolResultEventRecord>>,
    own: Seq<ToolResultEventRecord>,
    i: int,
    p: int,
)
    requires
        hotspots::session_shared(s, turns, priced, content, users, events),
        kept(events, s.session_id@, own),
        0 <= i < s.rows@.len(),
        0 <= p < own.len(),
        reports(own[p], s.rows@[i].tool_use_id@),
    ensures
        own[p].output_bytes is Some && (forall|k: int|
            0 <= k < p && reports(#[trigger] own[k], s.rows@[i].tool_use_id@)
                ==> own[k].output_bytes is None) ==> s.rows@[i].output_bytes
            == own[p].output_bytes,
        own[p].output_truncated is Some && (forall|k: int|
            0 <= k < p && reports(#[trigger] own[k], s.rows@[i].tool_use_id@)
                ==> own[k].output_truncated is None) ==> s.rows@[i].output_truncated
            == own[p].output_truncated,
{
    lemma_kept(events, s.session_id@, own);
    lemma_first_report(own, s.rows@[i].tool_use_id@, p);
}

/// The row of a call tells no more of its output than the reports on it do.
pub proof fn lemma_no_output_without_reports(
    s: SessionAttribution,
    turns: Seq<TurnRecord>,
    priced: Seq<bool>,
    content: Seq<BySession<ContentRecord>>,
    users: Seq<BySession<UserTurnRecord>>,
    events: Seq<BySession<ToolResultEventRecord>>,
    own: Seq<ToolResultEventRecord>,
    i: int,
)
    requires
        hotspots::session_shared(s, turns, priced, content, users, events),
        kept(events, s.session_id@, own),
        0 <= i < s.rows@.len(),
    ensures
        (forall|k: int|
            0 <= k < own.len() && reports(#[trigger] own[k], s.rows@[i].tool_use_id@)
                ==> own[k].output_bytes is None) ==> s.rows@[i].output_bytes is None,
        (forall|k: int|
            0 <= k < own.len() && reports(#[trigger] own[k], s.rows@[i].tool_use_id@)
                ==> own[k].output_truncated is None) ==> s.rows@[i].output_truncated is None,
{
    let id = s.rows@[i].tool_use_id@;
    lemma_kept(events, s.session_id@, own);
    if forall|k: int|
        0 <= k < own.len() && reports(#[trigger] own[k], id) ==> own[k].output_bytes is None {
        lemma_no_bytes(own, id);
    }
    if forall|k: int|
        0 <= k < own.len() && reports(#[trigger] own[k], id) ==> own[k].output_truncated is None {
        lemma_no_word(own, id);
    }
}

/// Sizes are known for a session if and only if one of its user turns holds a
/// tool result, or one of its calls has a result that was captured.
pub proof fn lemma_method(
    s: SessionAttribution,
    turns: Seq<TurnRecord>,
    priced: Seq<bool>,
    content: Seq<BySession<ContentRecord>>,
    users: Seq<BySession<UserTurnRecord>>,
    events: Seq<BySession<ToolResultEventRecord>>,
    own: Seq<UserTurnRecord>,
    captured: Seq<ContentRecord>,
)
    requires
        hotspots::session_shared(s, turns, priced, content, users, events),
        kept(users, s.session_id@, own),
        kept(content, s.session_id@, captured),
    ensures
        s.method == AttributionMethod::Sized <==> (exists|p: int, id: Seq<char>|
            0 <= p < own.len() && #[trigger] turn_sizes(own[p], id)) || (exists|p: int, i: int|
            0 <= p < captured.len() && 0 <= i < s.rows@.len() && #[trigger] captures(
                captured[p],
                s.rows@[i].tool_use_id@,
            )),
        forall|i: int|
            0 <= i < s.rows@.len() ==> (#[trigger] s.rows@[i]).result_bytes_estimated == (s.method
                == AttributionMethod::Sized),
{
    lemma_kept(users, s.session_id@, own);
    lemma_kept(content, s.session_id@, captured);
    let calls = sessions::calls_of(turns, s.turns@);
    if hotspots::users_size_any(own) {
        let (i, j) = choose|i: int, j: int|
            0 <= i < own.len() && 0 <= j < own[i].blocks@.len() && (
            #[trigger] own[i].blocks@[j]).kind == UserTurnBlockKind::ToolResult
                && own[i].blocks@[j].tool_use_id is Some;
        let id = own[i].blocks@[j].tool_use_id->Some_0@;
        assert(sizes(own[i].blocks@[j], id));
        assert(turn_sizes(own[i], id));
    }
    if hotspots::content_size_any(turns, s.turns@, captured) {
        let p = choose|i: int|
            0 <= i < captured.len() && (#[trigger] captured[i]).kind == ContentKind::ToolResult
                && captured[i].tool_result is Some && hotspots::is_emitted(
                turns,
                s.turns@,
                captured[i].tool_result->Some_0.tool_use_id@,
            );
        let id = captured[p].tool_result->Some_0.tool_use_id@;
        let (k, j) = choose|i: int, j: int|
            0 <= i < s.turns@.len() && 0 <= j < turns[s.turns@[i] as int].tool_calls@.len()
                && #[trigger] turns[s.turns@[i] as int].tool_calls@[j].id@ == id;
        let i = crate::laws::sessions::lemma_calls_are_all(turns, s.turns@, k, j);
        assert(s.rows@[i].tool_use_id@ == id);
        assert(captures(captured[p], s.rows@[i].tool_use_id@));
    }
    if exists|p: int, id: Seq<char>|
        0 <= p < own.len() && #[trigger] turn_sizes(own[p], id) {
        let (p, id) = choose|p: int, id: Seq<char>|
            0 <= p < own.len() && #[trigger] turn_sizes(own[p], id);
        let k = choose|k: int| 0 <= k < own[p].blocks@.len() && sizes(#[trigger] own[p].blocks@[k], id);
        assert(own[p].blocks@[k].kind == UserTurnBlockKind::ToolResult);
        assert(hotspots::users_size_any(own));
    }
    if exists|p: int, i: int|
        0 <= p < captured.len() && 0 <= i < s.rows@.len() && #[trigger] captures(
            captured[p],
            s.rows@[i].tool_use_id@,
        ) {
        let (p, i) = choose|p: int, i: int|
            0 <= p < captured.len() && 0 <= i < s.rows@.len() && #[trigger] captures(
                captured[p],
                s.rows@[i].tool_use_id@,
            );
        let id = s.rows@[i].tool_use_id@;
        let k = crate::laws::sessions::lemma_call_of_turn(turns, s.turns@, i);
        let j = calls[i].1;
        assert(turns[s.turns@[k] as int].tool_calls@[j].id@ == id);
        assert(hotspots::is_emitted(turns, s.turns@, id));
        assert(captured[p].kind == ContentKind::ToolResult);
        assert(hotspots::content_size_any(turns, s.turns@, captured));
    }
}

/// There is a row for every call of the session, under the ids, the name and
/// the turn of the call. A call of an agent or a task has its target for the
/// type of the subagent, and no other call has one.
pub proof fn lemma_rows_are_calls(
    s: SessionAttribution,
    turns: Seq<TurnRecord>,
    priced: Seq<bool>,
    content: Seq<BySession<ContentRecord>>,
    users: Seq<BySession<UserTurnRecord>>,
    events: Seq<BySession<ToolResultEventRecord>>,
    k: int,
    j: int,
) -> (i: int)
    requires
        hotspots::session_shared(s, turns, priced, content, users, events),
        0 <= k < s.turns@.len(),
        0 <= j < turns[s.turns@[k] as int].tool_calls@.len(),
    ensures
        0 <= i < s.rows@.len(),
        ({
            let t = turns[s.turns@[k] as int];
            let call = t.tool_calls@[j];
            let row = s.rows@[i];
            &&& row.tool_use_id@ == call.id@
            &&& row.tool_name@ == call.name@
            &&& row.args_hash@ == call.args_hash@
            &&& row.session_id@ == t.session_id@
            &&& row.emit_turn_index == t.turn_index
            &&& row.emit_ts@ == t.ts@
            &&& row.model@ == t.model@
            &&& row.target is Some == call.target is Some
            &&& call.target is Some ==> row.target->Some_0@ == call.target->Some_0@
            &&& row.project is Some == t.project is Some
            &&& t.project is Some ==> row.project->Some_0@ == t.project->Some_0@
            &&& row.project_key is Some == t.project_key is Some
            &&& t.project_key is Some ==> row.project_key->Some_0@ == t.project_key->Some_0@
            &&& row.subagent_type is Some <==> (call.name@ == "Agent"@ || call.name@ == "Task"@)
                && call.target is Some
            &&& row.subagent_type is Some ==> row.subagent_type->Some_0@ == call.target->Some_0@
        }),
{
    crate::laws::sessions::lemma_calls_are_all(turns, s.turns@, k, j)
}

} // verus!
