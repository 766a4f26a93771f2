//! What loops and runs say of their calls.

use crate::findings::{CancellationRun, FailureRun, PatternEventSource, RetryLoop};
use crate::attempts;
use crate::groups;
use crate::hotspots;
use crate::laws;
use crate::patterns;
use crate::patterns::{DetectPatternsOptions, In, SessionFindings};
use crate::records::{
    ContentKind, ContentRecord, ToolResultEventRecord, ToolResultEventSource, TurnRecord,
};
use crate::sessions;
use crate::streaks;
use crate::streaks::{AttemptView, Outcome, StreakKind};
use crate::text;
use vstd::prelude::*;

verus! {

/// Whether two turns have the same key, that is their session and message.
pub open spec fn same_key(a: TurnRecord, b: TurnRecord) -> bool {
    a.session_id@ + "|"@ + a.message_id@ == b.session_id@ + "|"@ + b.message_id@
}

/// Whether the turns at `costs` stand for those that the attempts belong to:
/// each of these once, and no others.
pub open spec fn pays_for(costs: Seq<usize>, turns: Seq<TurnRecord>, streak: Seq<AttemptView>) -> bool {
    &&& forall|i: int|
        0 <= i < streak.len() && (#[trigger] streak[i]).turn is Some ==> exists|j: int|
            0 <= j < costs.len() && same_key(
                turns[#[trigger] costs[j] as int],
                turns[streak[i].turn->Some_0 as int],
            )
    &&& forall|j: int|
        0 <= j < costs.len() ==> exists|i: int|
            0 <= i < streak.len() && (#[trigger] streak[i]).turn == Some(#[trigger] costs[j])
    &&& forall|j: int, k: int|
        #![trigger costs[j], costs[k]]
        0 <= j < k < costs.len() ==> !same_key(turns[costs[j] as int], turns[costs[k] as int])
}

proof fn lemma_distinct(turns: Seq<TurnRecord>, at: Seq<usize>)
    ensures
        ({
            let r = streaks::distinct_turns(turns, at);
            &&& forall|i: int|
                0 <= i < at.len() ==> exists|j: int|
                    0 <= j < r.len() && same_key(
                        turns[#[trigger] r[j] as int],
                        turns[#[trigger] at[i] as int],
                    )
            &&& forall|j: int| 0 <= j < r.len() ==> at.contains(#[trigger] r[j])
            &&& forall|j: int, k: int|
                #![trigger r[j], r[k]]
                0 <= j < k < r.len() ==> !same_key(turns[r[j] as int], turns[r[k] as int])
        }),
    decreases at.len(),
{
    if at.len() > 0 {
        let d = at.drop_last();
        lemma_distinct(turns, d);
        let rest = streaks::distinct_turns(turns, d);
        let r = streaks::distinct_turns(turns, at);
        let x = at.last();
        assert forall|i: int| 0 <= i < at.len() implies exists|j: int|
            0 <= j < r.len() && same_key(
                turns[#[trigger] r[j] as int],
                turns[#[trigger] at[i] as int],
            ) by {
            if i < d.len() {
                assert(d[i] == at[i]);
                let j = choose|j: int|
                    0 <= j < rest.len() && same_key(
                        turns[#[trigger] rest[j] as int],
                        turns[d[i] as int],
                    );
                assert(r[j] == rest[j]);
            } else if r.len() > rest.len() {
                assert(r[rest.len() as int] == x);
            } else {
                let k = choose|k: int|
                    0 <= k < rest.len() && streaks::turn_key(turns[#[trigger] rest[k] as int])
                        == streaks::turn_key(turns[x as int]);
                assert(same_key(turns[r[k] as int], turns[at[i] as int]));
            }
        }
        assert forall|j: int| 0 <= j < r.len() implies at.contains(#[trigger] r[j]) by {
            if j < rest.len() {
                assert(d.contains(rest[j]));
                let i = choose|i: int| 0 <= i < d.len() && d[i] == rest[j];
                assert(at[i] == r[j]);
            } else {
                assert(at[at.len() - 1] == r[j]);
            }
        }
        assert forall|j: int, k: int|
            #![trigger r[j], r[k]]
            0 <= j < k < r.len() implies !same_key(turns[r[j] as int], turns[r[k] as int]) by {
            if k < rest.len() {
                assert(r[j] == rest[j] && r[k] == rest[k]);
            } else {
                assert(r[j] == rest[j]);
                assert(streaks::turn_key(turns[rest[j] as int]) != streaks::turn_key(
                    turns[x as int],
                ));
            }
        }
    }
}

proof fn lemma_turns_of(streak: Seq<AttemptView>, t: usize)
    ensures
        streaks::turns_of(streak).contains(t) <==> exists|i: int|
            0 <= i < streak.len() && (#[trigger] streak[i]).turn == Some(t),
    decreases streak.len(),
{
    if streak.len() > 0 {
        let d = streak.drop_last();
        lemma_turns_of(d, t);
        let rest = streaks::turns_of(d);
        let all = streaks::turns_of(streak);
        if all.contains(t) {
            let j = choose|j: int| 0 <= j < all.len() && all[j] == t;
            if j < rest.len() {
                assert(rest[j] == t);
                assert(rest.contains(t));
                let i = choose|i: int| 0 <= i < d.len() && (#[trigger] d[i]).turn == Some(t);
                assert(streak[i] == d[i]);
            } else {
                assert(streak[streak.len() - 1].turn == Some(t));
            }
        }
        if exists|i: int| 0 <= i < streak.len() && (#[trigger] streak[i]).turn == Some(t) {
            let i = choose|i: int| 0 <= i < streak.len() && (#[trigger] streak[i]).turn == Some(t);
            if i < d.len() {
                assert(d[i] == streak[i]);
                assert(rest.contains(t));
                let j = choose|j: int| 0 <= j < rest.len() && rest[j] == t;
                assert(all[j] == t);
            } else {
                assert(all[all.len() - 1] == t);
            }
        }
    }
}

proof fn lemma_pays_for(turns: Seq<TurnRecord>, streak: Seq<AttemptView>)
    ensures
        pays_for(streaks::distinct_turns(turns, streaks::turns_of(streak)), turns, streak),
{
    let at = streaks::turns_of(streak);
    let costs = streaks::distinct_turns(turns, at);
    lemma_distinct(turns, at);
    assert forall|i: int|
        0 <= i < streak.len() && (#[trigger] streak[i]).turn is Some implies exists|j: int|
        0 <= j < costs.len() && same_key(
            turns[#[trigger] costs[j] as int],
            turns[streak[i].turn->Some_0 as int],
        ) by {
        let t = streak[i].turn->Some_0;
        lemma_turns_of(streak, t);
        assert(at.contains(t));
        let k = choose|k: int| 0 <= k < at.len() && at[k] == t;
        assert(at[k] == t);
    }
    assert forall|j: int| 0 <= j < costs.len() implies exists|i: int|
        0 <= i < streak.len() && (#[trigger] streak[i]).turn == Some(#[trigger] costs[j]) by {
        lemma_turns_of(streak, costs[j]);
        assert(at.contains(costs[j]));
    }
}

/// Whether the tools are those of the attempts, each once.
pub open spec fn names_tools(tools: Seq<Seq<char>>, streak: Seq<AttemptView>) -> bool {
    &&& tools.no_duplicates()
    &&& forall|t: Seq<char>| #[trigger]
        tools.contains(t) <==> exists|i: int|
            0 <= i < streak.len() && (#[trigger] streak[i]).tool == t
}

proof fn lemma_names_tools(streak: Seq<AttemptView>)
    ensures
        names_tools(groups::first_seen(streaks::tools_of(streak)), streak),
{
    let all = streaks::tools_of(streak);
    groups::lemma_first_seen(all);
    assert forall|t: Seq<char>| #[trigger] all.contains(t) <==> exists|i: int|
        0 <= i < streak.len() && (#[trigger] streak[i]).tool == t by {
        if all.contains(t) {
            let i = choose|i: int| 0 <= i < all.len() && all[i] == t;
            assert(streak[i].tool == t);
        }
        if exists|i: int| 0 <= i < streak.len() && (#[trigger] streak[i]).tool == t {
            let i = choose|i: int| 0 <= i < streak.len() && (#[trigger] streak[i]).tool == t;
            assert(all[i] == t);
        }
    }
    assert forall|t: Seq<char>| #[trigger] groups::first_seen(all).contains(t) <==> exists|i: int|
        0 <= i < streak.len() && (#[trigger] streak[i]).tool == t by {
        assert(groups::first_seen(all).contains(t) <==> all.contains(t));
    }
}

/// Whether the source is that of all of the reports, or else stands for several.
pub open spec fn tells_source(s: PatternEventSource, streak: Seq<AttemptView>) -> bool {
    &&& (exists|i: int|
        0 <= i < streak.len() && (#[trigger] streak[i]).source != streak[0].source) ==> s
        == PatternEventSource::Mixed
    &&& (forall|i: int|
        0 <= i < streak.len() ==> (#[trigger] streak[i]).source == streak[0].source) ==> {
        &&& streak[0].source == ToolResultEventSource::ToolResult ==> s
            == PatternEventSource::ToolResult
        &&& streak[0].source == ToolResultEventSource::FunctionCallOutput ==> s
            == PatternEventSource::FunctionCallOutput
        &&& streak[0].source == ToolResultEventSource::QueueEvent ==> s
            == PatternEventSource::QueueEvent
        &&& streak[0].source == ToolResultEventSource::ProgressEvent ==> s
            == PatternEventSource::ProgressEvent
        &&& streak[0].source == ToolResultEventSource::SubagentNotification ==> s
            == PatternEventSource::SubagentNotification
    }
}

/// A retry loop says what its calls cost, and where their outcomes were
/// reported, where they were.
pub proof fn lemma_retry_loop(
    r: RetryLoop,
    session: Seq<char>,
    turns: Seq<TurnRecord>,
    streak: Seq<AttemptView>,
    content: Seq<ContentRecord>,
    graph: bool,
)
    requires
        streaks::is_retry_loop(r, session, turns, streak, content, graph),
        streak.len() > 0,
    ensures
        pays_for(r.cost_turns@, turns, streak),
        r.event_source is Some == graph,
        graph ==> tells_source(r.event_source->Some_0, streak),
{
    lemma_pays_for(turns, streak);
}

/// A failure run names the tools of its calls, and says what they cost, and
/// where their outcomes were reported, where they were.
pub proof fn lemma_failure_run(
    r: FailureRun,
    session: Seq<char>,
    turns: Seq<TurnRecord>,
    streak: Seq<AttemptView>,
    content: Seq<ContentRecord>,
    graph: bool,
)
    requires
        streaks::is_failure_run(r, session, turns, streak, content, graph),
        streak.len() > 0,
    ensures
        pays_for(r.cost_turns@, turns, streak),
        names_tools(text::views(r.tools_involved@), streak),
        r.event_source is Some == graph,
        graph ==> tells_source(r.event_source->Some_0, streak),
{
    lemma_pays_for(turns, streak);
    lemma_names_tools(streak);
}

/// A cancellation run names the tools of its calls, and says what they cost and
/// where their outcomes were reported.
pub proof fn lemma_cancellation_run(
    r: CancellationRun,
    session: Seq<char>,
    turns: Seq<TurnRecord>,
    streak: Seq<AttemptView>,
)
    requires
        streaks::is_cancellation_run(r, session, turns, streak),
        streak.len() > 0,
    ensures
        r.session_id@ == session,
        r.length == streak.len(),
        r.start_turn_index == streak[0].turn_index,
        r.end_turn_index == streak.last().turn_index,
        pays_for(r.cost_turns@, turns, streak),
        names_tools(text::views(r.tools_involved@), streak),
        tells_source(r.event_source, streak),
{
    lemma_pays_for(turns, streak);
    lemma_names_tools(streak);
}

/// Whether the record captures a result of the call.
pub open spec fn captures(c: ContentRecord, id: Seq<char>) -> bool {
    c.kind == ContentKind::ToolResult && (c.tool_result matches Some(tr) && tr.tool_use_id@ == id)
}

/// The error of a call is read from the first result of it that was captured.
pub proof fn lemma_error_of_call(
    a: AttemptView,
    content: Seq<ContentRecord>,
    id: Seq<char>,
    p: int,
)
    requires
        a.call_id == Some(id),
        0 <= p < content.len(),
        captures(content[p], id),
        forall|k: int| 0 <= k < p ==> !captures(#[trigger] content[k], id),
    ensures
        streaks::attempt_signature(a, content) == streaks::signature_of(
            Some(content[p].tool_result->Some_0.content@),
        ),
{
    lemma_first_result(content, id, p);
}

proof fn lemma_first_result(content: Seq<ContentRecord>, id: Seq<char>, p: int)
    requires
        0 <= p < content.len(),
        captures(content[p], id),
        forall|k: int| 0 <= k < p ==> !captures(#[trigger] content[k], id),
    ensures
        streaks::first_result(content, id) == Some(content[p].tool_result->Some_0.content@),
    decreases content.len(),
{
    let d = content.drop_last();
    if p < d.len() {
        assert(d[p] == content[p]);
        lemma_first_result(d, id, p);
    } else {
        assert forall|k: int| 0 <= k < d.len() implies !captures(#[trigger] d[k], id) by {
            assert(d[k] == content[k]);
        }
        lemma_no_result(d, id);
    }
}

proof fn lemma_no_result(content: Seq<ContentRecord>, id: Seq<char>)
    requires
        forall|k: int| 0 <= k < content.len() ==> !captures(#[trigger] content[k], id),
    ensures
        streaks::first_result(content, id) is None,
    decreases content.len(),
{
    if content.len() > 0 {
        let d = content.drop_last();
        assert forall|k: int| 0 <= k < d.len() implies !captures(#[trigger] d[k], id) by {
            assert(d[k] == content[k]);
        }
        lemma_no_result(d, id);
        assert(!captures(content[content.len() - 1], id));
    }
}

proof fn lemma_signature_first(streak: Seq<AttemptView>, content: Seq<ContentRecord>, k: int)
    requires
        0 <= k < streak.len(),
        streaks::attempt_signature(streak[k], content) is Some,
        forall|i: int|
            0 <= i < k ==> streaks::attempt_signature(#[trigger] streak[i], content) is None,
    ensures
        streaks::signatures(streak, content).len() > 0,
        Some(streaks::signatures(streak, content)[0]) == streaks::attempt_signature(
            streak[k],
            content,
        ),
    decreases streak.len(),
{
    let d = streak.drop_last();
    if k < d.len() {
        assert(d[k] == streak[k]);
        assert forall|i: int| 0 <= i < k implies streaks::attempt_signature(
            #[trigger] d[i],
            content,
        ) is None by {
            assert(d[i] == streak[i]);
        }
        lemma_signature_first(d, content, k);
    } else {
        assert forall|i: int| 0 <= i < d.len() implies streaks::attempt_signature(
            #[trigger] d[i],
            content,
        ) is None by {
            assert(d[i] == streak[i]);
        }
        lemma_signature_none(d, content);
    }
}

proof fn lemma_signature_none(streak: Seq<AttemptView>, content: Seq<ContentRecord>)
    requires
        forall|i: int|
            0 <= i < streak.len() ==> streaks::attempt_signature(
                #[trigger] streak[i],
                content,
            ) is None,
    ensures
        streaks::signatures(streak, content).len() == 0,
    decreases streak.len(),
{
    if streak.len() > 0 {
        let d = streak.drop_last();
        assert forall|i: int| 0 <= i < d.len() implies streaks::attempt_signature(
            #[trigger] d[i],
            content,
        ) is None by {
            assert(d[i] == streak[i]);
        }
        lemma_signature_none(d, content);
        assert(streaks::attempt_signature(streak[streak.len() - 1], content) is None);
    }
}

proof fn lemma_signature_among(streak: Seq<AttemptView>, content: Seq<ContentRecord>, s: Seq<char>)
    ensures
        streaks::signatures(streak, content).contains(s) <==> exists|i: int|
            0 <= i < streak.len() && streaks::attempt_signature(#[trigger] streak[i], content)
                == Some(s),
    decreases streak.len(),
{
    if streak.len() > 0 {
        let d = streak.drop_last();
        lemma_signature_among(d, content, s);
        let rest = streaks::signatures(d, content);
        let all = streaks::signatures(streak, content);
        if all.contains(s) {
            let j = choose|j: int| 0 <= j < all.len() && all[j] == s;
            if j < rest.len() {
                assert(rest[j] == s);
                assert(rest.contains(s));
                let i = choose|i: int|
                    0 <= i < d.len() && streaks::attempt_signature(#[trigger] d[i], content)
                        == Some(s);
                assert(streak[i] == d[i]);
            } else {
                assert(streaks::attempt_signature(streak[streak.len() - 1], content) == Some(s));
            }
        }
        if exists|i: int|
            0 <= i < streak.len() && streaks::attempt_signature(#[trigger] streak[i], content)
                == Some(s) {
            let i = choose|i: int|
                0 <= i < streak.len() && streaks::attempt_signature(#[trigger] streak[i], content)
                    == Some(s);
            if i < d.len() {
                assert(d[i] == streak[i]);
                assert(rest.contains(s));
                let j = choose|j: int| 0 <= j < rest.len() && rest[j] == s;
                assert(all[j] == s);
            } else {
                assert(all[all.len() - 1] == s);
            }
        }
    }
}

/// A retry loop goes by the error of its first call that has one, with a mark
/// where another call has a different one.
pub proof fn lemma_loop_error(
    r: RetryLoop,
    session: Seq<char>,
    turns: Seq<TurnRecord>,
    streak: Seq<AttemptView>,
    content: Seq<ContentRecord>,
    graph: bool,
    k: int,
    sig: Seq<char>,
)
    requires
        streaks::is_retry_loop(r, session, turns, streak, content, graph),
        0 <= k < streak.len(),
        streaks::attempt_signature(streak[k], content) == Some(sig),
        forall|i: int|
            0 <= i < k ==> streaks::attempt_signature(#[trigger] streak[i], content) is None,
    ensures
        r.error_signature is Some,
        (forall|i: int|
            0 <= i < streak.len() ==> streaks::attempt_signature(#[trigger] streak[i], content)
                is None || streaks::attempt_signature(streak[i], content) == Some(sig))
            ==> r.error_signature->Some_0@ == sig,
        (exists|i: int|
            0 <= i < streak.len() && streaks::attempt_signature(#[trigger] streak[i], content)
                is Some && streaks::attempt_signature(streak[i], content) != Some(sig))
            ==> r.error_signature->Some_0@ == sig + " (signatures diverged)"@,
{
    lemma_signature_first(streak, content, k);
    let sigs = streaks::signatures(streak, content);
    if exists|i: int| 0 <= i < sigs.len() && #[trigger] sigs[i] != sigs[0] {
        let i = choose|i: int| 0 <= i < sigs.len() && #[trigger] sigs[i] != sigs[0];
        lemma_signature_among(streak, content, sigs[i]);
        assert(sigs.contains(sigs[i]));
    }
    if exists|i: int|
        0 <= i < streak.len() && streaks::attempt_signature(#[trigger] streak[i], content) is Some
            && streaks::attempt_signature(streak[i], content) != Some(sig) {
        let i = choose|i: int|
            0 <= i < streak.len() && streaks::attempt_signature(#[trigger] streak[i], content)
                is Some && streaks::attempt_signature(streak[i], content) != Some(sig);
        let other = streaks::attempt_signature(streak[i], content)->Some_0;
        lemma_signature_among(streak, content, other);
        assert(sigs.contains(other));
        let j = choose|j: int| 0 <= j < sigs.len() && sigs[j] == other;
        assert(sigs[j] != sigs[0]);
    }
}

/// A retry loop without an error in its calls goes by none.
pub proof fn lemma_loop_without_error(
    r: RetryLoop,
    session: Seq<char>,
    turns: Seq<TurnRecord>,
    streak: Seq<AttemptView>,
    content: Seq<ContentRecord>,
    graph: bool,
)
    requires
        streaks::is_retry_loop(r, session, turns, streak, content, graph),
        forall|i: int|
            0 <= i < streak.len() ==> streaks::attempt_signature(
                #[trigger] streak[i],
                content,
            ) is None,
    ensures
        r.error_signature is None,
{
    lemma_signature_none(streak, content);
}

/// A failure run has one error for each tool that has one: that of its first
/// call with an error.
pub proof fn lemma_run_errors(
    r: FailureRun,
    session: Seq<char>,
    turns: Seq<TurnRecord>,
    streak: Seq<AttemptView>,
    content: Seq<ContentRecord>,
    graph: bool,
    k: int,
    sig: Seq<char>,
) -> (j: int)
    requires
        streaks::is_failure_run(r, session, turns, streak, content, graph),
        0 <= k < streak.len(),
        streaks::attempt_signature(streak[k], content) == Some(sig),
        forall|i: int|
            0 <= i < k && (#[trigger] streak[i]).tool == streak[k].tool
                ==> streaks::attempt_signature(streak[i], content) is None,
    ensures
        r.error_signatures is Some,
        0 <= j < r.error_signatures->Some_0@.len(),
        streaks::signature_views(r.error_signatures->Some_0@)[j] == (streak[k].tool, sig),
        forall|a: int, b: int|
            #![trigger streaks::signature_views(r.error_signatures->Some_0@)[a], streaks::signature_views(r.error_signatures->Some_0@)[b]]
            0 <= a < b < r.error_signatures->Some_0@.len() ==> streaks::signature_views(
                r.error_signatures->Some_0@,
            )[a].0 != streaks::signature_views(r.error_signatures->Some_0@)[b].0,
{
    lemma_run_signatures(streak, content);
    lemma_run_signature(streak, content, k)
}

proof fn lemma_run_signatures(streak: Seq<AttemptView>, content: Seq<ContentRecord>)
    ensures
        forall|a: int, b: int|
            #![trigger streaks::run_signatures(streak, content)[a], streaks::run_signatures(streak, content)[b]]
            0 <= a < b < streaks::run_signatures(streak, content).len()
                ==> streaks::run_signatures(streak, content)[a].0 != streaks::run_signatures(
                streak,
                content,
            )[b].0,
        forall|a: int|
            0 <= a < streaks::run_signatures(streak, content).len() ==> exists|i: int|
                0 <= i < streak.len() && (#[trigger] streak[i]).tool == (
                #[trigger] streaks::run_signatures(streak, content)[a]).0
                    && streaks::attempt_signature(streak[i], content) is Some,
    decreases streak.len(),
{
    if streak.len() > 0 {
        let d = streak.drop_last();
        lemma_run_signatures(d, content);
        let rest = streaks::run_signatures(d, content);
        let all = streaks::run_signatures(streak, content);
        assert forall|a: int, b: int| #![trigger all[a], all[b]] 0 <= a < b < all.len() implies all[a].0
            != all[b].0 by {
            if b < rest.len() {
                assert(all[a] == rest[a] && all[b] == rest[b]);
            } else {
                assert(all[a] == rest[a]);
            }
        }
        assert forall|a: int| 0 <= a < all.len() implies exists|i: int|
            0 <= i < streak.len() && (#[trigger] streak[i]).tool == (#[trigger] all[a]).0
                && streaks::attempt_signature(streak[i], content) is Some by {
            if a < rest.len() {
                assert(all[a] == rest[a]);
                let i = choose|i: int|
                    0 <= i < d.len() && (#[trigger] d[i]).tool == rest[a].0
                        && streaks::attempt_signature(d[i], content) is Some;
                assert(streak[i] == d[i]);
            } else {
                assert(streak[streak.len() - 1].tool == all[a].0);
            }
        }
    }
}

proof fn lemma_run_signature(streak: Seq<AttemptView>, content: Seq<ContentRecord>, k: int) -> (
    j: int)
    requires
        0 <= k < streak.len(),
        streaks::attempt_signature(streak[k], content) is Some,
        forall|i: int|
            0 <= i < k && (#[trigger] streak[i]).tool == streak[k].tool
                ==> streaks::attempt_signature(streak[i], content) is None,
    ensures
        0 <= j < streaks::run_signatures(streak, content).len(),
        streaks::run_signatures(streak, content)[j] == (
            streak[k].tool,
            streaks::attempt_signature(streak[k], content)->Some_0,
        ),
    decreases streak.len(),
{
    let d = streak.drop_last();
    let rest = streaks::run_signatures(d, content);
    if k < d.len() {
        assert(d[k] == streak[k]);
        assert forall|i: int|
            0 <= i < k && (#[trigger] d[i]).tool == d[k].tool implies streaks::attempt_signature(
            d[i],
            content,
        ) is None by {
            assert(d[i] == streak[i]);
        }
        let j = lemma_run_signature(d, content, k);
        assert(streaks::run_signatures(streak, content)[j] == rest[j]);
        j
    } else {
        lemma_run_signatures(d, content);
        if streaks::has_tool(rest, streak[k].tool) {
            let a = choose|a: int| 0 <= a < rest.len() && (#[trigger] rest[a]).0 == streak[k].tool;
            let i = choose|i: int|
                0 <= i < d.len() && (#[trigger] d[i]).tool == rest[a].0
                    && streaks::attempt_signature(d[i], content) is Some;
            assert(streak[i] == d[i]);
            assert(false);
        }
        rest.len() as int
    }
}

/// What the reports on the calls of the session come to.
pub open spec fn reported(
    turns: Seq<TurnRecord>,
    events: Seq<ToolResultEventRecord>,
    s: (Seq<char>, Seq<usize>),
) -> Seq<AttemptView> {
    attempts::event_attempts(turns, s.1, events, patterns::reports_of(events, s.0))
}

/// The reports on the calls of a session are those under its id, in the order
/// in which they stand.
pub proof fn lemma_reports_of(events: Seq<ToolResultEventRecord>, id: Seq<char>)
    requires
        events.len() <= usize::MAX,
    ensures
        ({
            let at = patterns::reports_of(events, id);
            &&& at.len() <= events.len()
            &&& forall|i: int, j: int| 0 <= i < j < at.len() ==> at[i] < at[j]
            &&& forall|e: int|
                0 <= e < events.len() ==> (at.contains(e as usize) <==> (
                #[trigger] events[e]).session_id@ == id)
            &&& forall|i: int| 0 <= i < at.len() ==> (#[trigger] at[i]) < events.len()
            &&& at.len() > 0 <==> patterns::is_reported(events, id)
        }),
{
    let keys = patterns::report_sessions(events);
    let at = patterns::reports_of(events, id);
    groups::lemma_positions(keys, id);
    assert forall|e: int| 0 <= e < events.len() implies (at.contains(e as usize) <==> (
    #[trigger] events[e]).session_id@ == id) by {
        assert(keys[e] == events[e].session_id@);
        if at.contains(e as usize) {
            let i = choose|i: int| 0 <= i < at.len() && at[i] == e as usize;
            assert(keys[at[i] as int] == id);
        }
    }
}

/// Whether the attempts from `lo` up to `hi` have the outcome, and those right
/// before and right behind have not.
pub open spec fn all_come_out(a: Seq<AttemptView>, o: Outcome, lo: int, hi: int) -> bool {
    &&& 0 <= lo < hi <= a.len()
    &&& forall|k: int| lo <= k < hi ==> (#[trigger] a[k]).outcome == o
    &&& lo > 0 ==> a[lo - 1].outcome != o
    &&& hi < a.len() ==> a[hi].outcome != o
}

/// Every stretch of calls that were cancelled, as far as it goes, is reported
/// as a cancellation run.
pub proof fn lemma_cancellations(
    f: SessionFindings,
    turns: Seq<TurnRecord>,
    opts: DetectPatternsOptions,
    g: int,
    lo: int,
    hi: int,
) -> (p: int)
    requires
        f.covers(turns, opts, sessions::sessions_of(turns)),
        0 <= g < sessions::sessions_of(turns).len(),
        patterns::is_reported(opts.tool_result_events@, sessions::sessions_of(turns)[g].0),
        all_come_out(
            reported(turns, opts.tool_result_events@, sessions::sessions_of(turns)[g]),
            Outcome::Cancelled,
            lo,
            hi,
        ),
    ensures
        0 <= p < f.cancelled_runs@.len(),
        ({
            let a = reported(turns, opts.tool_result_events@, sessions::sessions_of(turns)[g]);
            let r = f.cancelled_runs@[p];
            &&& r.session_id@ == sessions::sessions_of(turns)[g].0
            &&& r.length == hi - lo
            &&& r.start_turn_index == a[lo].turn_index
            &&& r.end_turn_index == a[hi - 1].turn_index
            &&& pays_for(r.cost_turns@, turns, a.subrange(lo, hi))
            &&& names_tools(text::views(r.tools_involved@), a.subrange(lo, hi))
            &&& tells_source(r.event_source, a.subrange(lo, hi))
        }),
{
    let all = sessions::sessions_of(turns);
    let s = all[g];
    let ev = opts.tool_result_events@;
    let a = reported(turns, ev, s);
    let keep = streaks::kept(StreakKind::Cancelled, a);
    let same = streaks::joined(StreakKind::Cancelled, a);
    assert(laws::streaks::is_likeness(same));
    laws::streaks::lemma_whole_stretches(keep, same);
    assert forall|k: int| lo <= k < hi implies #[trigger] keep[k] by {
        assert(a[k].outcome == Outcome::Cancelled);
    }
    assert(laws::streaks::is_whole(keep, same, lo, hi));
    let found = streaks::streaks(StreakKind::Cancelled, a);
    assert(found.contains((lo, hi)));
    let k = choose|k: int| 0 <= k < found.len() && found[k] == (lo, hi);
    let streak = streaks::members_of(a, (lo, hi));
    let lists = all.map_values(
        |g: (Seq<char>, Seq<usize>)| patterns::cancellations_in(turns, ev, g),
    );
    assert(lists[g] == patterns::cancellations_in(turns, ev, s));
    assert(lists[g][k] == In { session: s.0, members: s.1, item: streak });
    let p = laws::edits::lemma_in_chain(
        f.cancelled_runs@,
        lists,
        patterns::cancellation_rule(turns),
        g,
        k,
    );
    lemma_cancellation_run(f.cancelled_runs@[p], s.0, turns, streak);
    assert(streak[0] == a[lo]);
    assert(streak.last() == a[hi - 1]);
    p
}

/// Nothing else is reported as a cancellation run.
pub proof fn lemma_only_cancellations(
    f: SessionFindings,
    turns: Seq<TurnRecord>,
    opts: DetectPatternsOptions,
    p: int,
) -> (r: (int, int, int))
    requires
        f.covers(turns, opts, sessions::sessions_of(turns)),
        0 <= p < f.cancelled_runs@.len(),
    ensures
        0 <= r.0 < sessions::sessions_of(turns).len(),
        f.cancelled_runs@[p].session_id@ == sessions::sessions_of(turns)[r.0].0,
        patterns::is_reported(opts.tool_result_events@, sessions::sessions_of(turns)[r.0].0),
        all_come_out(
            reported(turns, opts.tool_result_events@, sessions::sessions_of(turns)[r.0]),
            Outcome::Cancelled,
            r.1,
            r.2,
        ),
        f.cancelled_runs@[p].length == r.2 - r.1,
{
    let all = sessions::sessions_of(turns);
    let ev = opts.tool_result_events@;
    let lists = all.map_values(
        |g: (Seq<char>, Seq<usize>)| patterns::cancellations_in(turns, ev, g),
    );
    let (g, k) = laws::edits::lemma_from_chain(
        f.cancelled_runs@,
        lists,
        patterns::cancellation_rule(turns),
        p,
    );
    let s = all[g];
    let a = reported(turns, ev, s);
    assert(lists[g] == patterns::cancellations_in(turns, ev, s));
    let keep = streaks::kept(StreakKind::Cancelled, a);
    let same = streaks::joined(StreakKind::Cancelled, a);
    assert(laws::streaks::is_likeness(same));
    laws::streaks::lemma_whole_stretches(keep, same);
    let found = streaks::streaks(StreakKind::Cancelled, a);
    let (lo, hi) = found[k];
    assert(lists[g][k].item == streaks::members_of(a, found[k]));
    assert(laws::streaks::is_whole(keep, same, found[k].0, found[k].1));
    assert forall|j: int| lo <= j < hi implies (#[trigger] a[j]).outcome
        == Outcome::Cancelled by {
        assert(keep[j]);
    }
    (g, lo, hi)
}

/// Three or more failures in a row that were reported are a failure run, unless
/// they are all the same call and the tool itself reported them all.
pub proof fn lemma_reported_failures(
    f: SessionFindings,
    turns: Seq<TurnRecord>,
    opts: DetectPatternsOptions,
    g: int,
    lo: int,
    hi: int,
    other: int,
) -> (p: int)
    requires
        f.covers(turns, opts, sessions::sessions_of(turns)),
        0 <= g < sessions::sessions_of(turns).len(),
        patterns::is_reported(opts.tool_result_events@, sessions::sessions_of(turns)[g].0),
        all_come_out(
            reported(turns, opts.tool_result_events@, sessions::sessions_of(turns)[g]),
            Outcome::Errored,
            lo,
            hi,
        ),
        hi - lo >= 3,
        lo <= other < hi,
        ({
            let a = reported(turns, opts.tool_result_events@, sessions::sessions_of(turns)[g]);
            a[other].source != ToolResultEventSource::ToolResult || streaks::attempt_key(a[other])
                != streaks::attempt_key(a[lo])
        }),
    ensures
        0 <= p < f.failure_runs@.len(),
        ({
            let a = reported(turns, opts.tool_result_events@, sessions::sessions_of(turns)[g]);
            let r = f.failure_runs@[p];
            &&& r.session_id@ == sessions::sessions_of(turns)[g].0
            &&& r.length == hi - lo
            &&& r.start_turn_index == a[lo].turn_index
            &&& r.end_turn_index == a[hi - 1].turn_index
            &&& r.event_source is Some
            &&& tells_source(r.event_source->Some_0, a.subrange(lo, hi))
        }),
{
    let all = sessions::sessions_of(turns);
    let s = all[g];
    let ev = opts.tool_result_events@;
    let a = reported(turns, ev, s);
    let keep = streaks::kept(StreakKind::Errored, a);
    let same = streaks::joined(StreakKind::Errored, a);
    assert(laws::streaks::is_likeness(same));
    laws::streaks::lemma_whole_stretches(keep, same);
    assert forall|k: int| lo <= k < hi implies #[trigger] keep[k] by {
        assert(a[k].outcome == Outcome::Errored);
    }
    assert(laws::streaks::is_whole(keep, same, lo, hi));
    let every = streaks::streaks(StreakKind::Errored, a);
    assert(every.contains((lo, hi)));
    let streak = streaks::members_of(a, (lo, hi));
    assert(streak[0] == a[lo]);
    assert(streak.last() == a[hi - 1]);
    assert(streak[other - lo] == a[other]);
    assert(streaks::is_run(streak, true));
    let run = |s: (int, int)| streaks::is_run(streaks::members_of(a, s), true);
    laws::streaks::lemma_pick_both(every, run, (lo, hi));
    let found = streaks::failure_streaks(a, true);
    let k = choose|k: int| 0 <= k < found.len() && found[k] == (lo, hi);
    let lists = all.map_values(|g: (Seq<char>, Seq<usize>)| patterns::failures_in(turns, ev, g));
    assert(lists[g] == patterns::failures_in(turns, ev, s));
    assert(lists[g][k] == In { session: s.0, members: s.1, item: streak });
    let p = laws::edits::lemma_in_chain(
        f.failure_runs@,
        lists,
        patterns::failure_rule(turns, opts.content_by_session@, ev),
        g,
        k,
    );
    lemma_failure_run(
        f.failure_runs@[p],
        s.0,
        turns,
        streak,
        hotspots::records_of(opts.content_by_session@, s.0),
        true,
    );
    p
}

} // verus!
