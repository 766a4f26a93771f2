//! Calls that fail or are cancelled again and again.

use crate::attempts;
use crate::findings::{FailureRun, RetryLoop};
use crate::laws;
use crate::patterns;
use crate::patterns::{DetectPatternsOptions, In, SessionFindings};
use crate::records::{ToolCall, ToolResultEventRecord, TurnRecord};
use crate::sessions;
use crate::streaks;
use crate::streaks::StreakKind;
use vstd::prelude::*;

verus! {

/// Whether `same` says of things that they are alike.
pub open spec fn is_likeness(same: spec_fn(int, int) -> bool) -> bool {
    &&& forall|i: int, j: int| #[trigger] same(i, j) ==> same(j, i)
    &&& forall|i: int, j: int, k: int| #[trigger] same(i, j) && #[trigger] same(j, k) ==> same(i, k)
    &&& forall|i: int| #[trigger] same(i, i)
}

/// Whether the stretch from `lo` up to `hi` is kept and alike, and cannot be
/// made longer on either side.
pub open spec fn is_whole(
    keep: Seq<bool>,
    same: spec_fn(int, int) -> bool,
    lo: int,
    hi: int,
) -> bool {
    &&& 0 <= lo < hi <= keep.len()
    &&& forall|k: int| lo <= k < hi ==> #[trigger] keep[k]
    &&& forall|k: int| lo <= k < hi ==> #[trigger] same(lo, k)
    &&& lo > 0 ==> !(keep[lo - 1] && same(lo, lo - 1))
    &&& hi < keep.len() ==> !(keep[hi] && same(lo, hi))
}

proof fn lemma_walk_ends(n: int, keep: Seq<bool>, same: spec_fn(int, int) -> bool)
    requires
        0 <= n <= keep.len(),
    ensures
        0 <= streaks::walk(n, keep, same).start <= n,
        forall|i: int|
            0 <= i < streaks::walk(n, keep, same).done.len() ==> (#[trigger] streaks::walk(
                n,
                keep,
                same,
            ).done[i]).1 < n && !(keep[streaks::walk(n, keep, same).done[i].1] && same(
                streaks::walk(n, keep, same).done[i].0,
                streaks::walk(n, keep, same).done[i].1,
            )),
    decreases n,
{
    if n > 0 {
        lemma_walk_ends(n - 1, keep, same);
        let p = streaks::walk(n - 1, keep, same);
        let w = streaks::walk(n, keep, same);
        assert(forall|i: int| 0 <= i < p.done.len() ==> #[trigger] w.done[i] == p.done[i]);
    }
}

/// The stretches that are found are exactly those that cannot be made longer.
pub proof fn lemma_whole_stretches(keep: Seq<bool>, same: spec_fn(int, int) -> bool)
    requires
        is_likeness(same),
    ensures
        forall|lo: int, hi: int| #[trigger]
            is_whole(keep, same, lo, hi) ==> streaks::streaks_of(keep, same).contains((lo, hi)),
        forall|i: int|
            0 <= i < streaks::streaks_of(keep, same).len() ==> is_whole(
                keep,
                same,
                (#[trigger] streaks::streaks_of(keep, same)[i]).0,
                streaks::streaks_of(keep, same)[i].1,
            ),
{
    let n = keep.len() as int;
    let all = streaks::streaks_of(keep, same);
    let w = streaks::walk(n, keep, same);
    streaks::lemma_streaks(keep, same);
    lemma_walk_ends(n, keep, same);
    assert forall|i: int| 0 <= i < all.len() implies #[trigger] all[i].1 == n || !(
    keep[all[i].1] && same(all[i].0, all[i].1)) by {
        if i < w.done.len() {
            assert(all[i] == w.done[i]);
        }
    }
    assert forall|lo: int, hi: int| #[trigger] is_whole(keep, same, lo, hi) implies all.contains(
        (lo, hi),
    ) by {
        assert(keep[lo]);
        let i = choose|i: int| 0 <= i < all.len() && (#[trigger] all[i]).0 <= lo < all[i].1;
        let s = all[i];
        assert(streaks::is_streak(s, keep, same));
        if s.0 < lo {
            assert(keep[lo - 1]);
            assert(same(s.0, lo));
            if s.0 < lo - 1 {
                assert(same(s.0, lo - 1));
            }
            assert(same(lo, s.0));
            assert(same(lo, lo - 1));
        }
        if s.1 > hi {
            assert(keep[hi]);
            assert(same(lo, hi));
        }
        if s.1 < hi {
            assert(keep[s.1]);
            assert(same(lo, s.1));
        }
        assert(s == (lo, hi));
    }
    assert forall|i: int| 0 <= i < all.len() implies is_whole(
        keep,
        same,
        (#[trigger] all[i]).0,
        all[i].1,
    ) by {
        let s = all[i];
        assert(streaks::is_streak(s, keep, same));
        if s.0 > 0 && keep[s.0 - 1] && same(s.0, s.0 - 1) {
            let j = choose|j: int|
                0 <= j < all.len() && (#[trigger] all[j]).0 <= s.0 - 1 < all[j].1;
            assert(streaks::is_streak(all[j], keep, same));
            if j > i {
                assert(all[i].1 <= all[j].0);
            } else {
                assert(j < i);
                assert(all[j].1 <= all[i].0);
                assert(all[j].1 == s.0);
                if all[j].0 < s.0 - 1 {
                    assert(same(all[j].0, s.0 - 1));
                }
                assert(same(s.0 - 1, s.0));
                assert(same(all[j].0, s.0));
            }
        }
    }
}

/// The call at the position.
pub open spec fn call_of(turns: Seq<TurnRecord>, calls: Seq<(int, int)>, i: int) -> ToolCall {
    turns[calls[i].0].tool_calls@[calls[i].1]
}

/// Whether the call failed.
pub open spec fn failed(turns: Seq<TurnRecord>, calls: Seq<(int, int)>, i: int) -> bool {
    call_of(turns, calls, i).is_error == Some(true)
}

/// Whether the two calls are of one tool with the same arguments.
pub open spec fn repeats(turns: Seq<TurnRecord>, calls: Seq<(int, int)>, i: int, j: int) -> bool {
    call_of(turns, calls, i).name@ == call_of(turns, calls, j).name@ && call_of(
        turns,
        calls,
        i,
    ).args_hash@ == call_of(turns, calls, j).args_hash@
}

/// Whether the calls from `lo` up to `hi` are one call that failed over and
/// over, with nothing else in between, and neither the call before nor the one
/// behind is another such failure.
pub open spec fn keeps_failing(
    turns: Seq<TurnRecord>,
    calls: Seq<(int, int)>,
    lo: int,
    hi: int,
) -> bool {
    &&& 0 <= lo < hi <= calls.len()
    &&& forall|k: int| lo <= k < hi ==> #[trigger] failed(turns, calls, k)
    &&& forall|k: int| lo <= k < hi ==> #[trigger] repeats(turns, calls, lo, k)
    &&& lo > 0 ==> !(failed(turns, calls, lo - 1) && repeats(turns, calls, lo, lo - 1))
    &&& hi < calls.len() ==> !(failed(turns, calls, hi) && repeats(turns, calls, lo, hi))
}

/// Whether all calls from `lo` up to `hi` failed, and neither the call before
/// nor the one behind did.
pub open spec fn all_failing(
    turns: Seq<TurnRecord>,
    calls: Seq<(int, int)>,
    lo: int,
    hi: int,
) -> bool {
    &&& 0 <= lo < hi <= calls.len()
    &&& forall|k: int| lo <= k < hi ==> #[trigger] failed(turns, calls, k)
    &&& lo > 0 ==> !failed(turns, calls, lo - 1)
    &&& hi < calls.len() ==> !failed(turns, calls, hi)
}

/// Whether nothing was reported on the calls of the session, so that the turns
/// themselves say how they came out.
pub open spec fn unreported(events: Seq<ToolResultEventRecord>, session: Seq<char>) -> bool {
    forall|e: int| 0 <= e < events.len() ==> (#[trigger] events[e]).session_id@ != session
}

proof fn lemma_unreported(events: Seq<ToolResultEventRecord>, session: Seq<char>)
    requires
        unreported(events, session),
    ensures
        !patterns::is_reported(events, session),
    decreases events.len(),
{
    let keys = patterns::report_sessions(events);
    if events.len() > 0 {
        let d = events.drop_last();
        assert forall|e: int| 0 <= e < d.len() implies (#[trigger] d[e]).session_id@
            != session by {
            assert(d[e] == events[e]);
        }
        lemma_unreported(d, session);
        assert(keys.drop_last() =~= patterns::report_sessions(d));
        assert(events[events.len() - 1].session_id@ != session);
    }
}

proof fn lemma_call_attempts(turns: Seq<TurnRecord>, members: Seq<usize>)
    ensures
        ({
            let calls = sessions::calls_of(turns, members);
            let a = attempts::call_attempts(turns, members);
            let kind = StreakKind::SameCallErrored;
            &&& a.len() == calls.len()
            &&& is_likeness(streaks::joined(kind, a))
            &&& is_likeness(streaks::joined(StreakKind::Errored, a))
            &&& streaks::kept(kind, a).len() == calls.len()
            &&& streaks::kept(StreakKind::Errored, a).len() == calls.len()
            &&& forall|i: int|
                0 <= i < calls.len() ==> #[trigger] streaks::kept(kind, a)[i] == failed(
                    turns,
                    calls,
                    i,
                )
            &&& forall|i: int|
                0 <= i < calls.len() ==> #[trigger] streaks::kept(StreakKind::Errored, a)[i]
                    == failed(turns, calls, i)
            &&& forall|i: int, j: int|
                0 <= i < calls.len() && 0 <= j < calls.len() ==> #[trigger] streaks::joined(
                    kind,
                    a,
                )(i, j) == repeats(turns, calls, i, j)
        }),
{
}

proof fn lemma_keeps_failing(turns: Seq<TurnRecord>, members: Seq<usize>, lo: int, hi: int)
    ensures
        ({
            let calls = sessions::calls_of(turns, members);
            let a = attempts::call_attempts(turns, members);
            &&& keeps_failing(turns, calls, lo, hi) && hi - lo >= 3 <==> streaks::retry_streaks(
                a,
            ).contains((lo, hi))
            &&& all_failing(turns, calls, lo, hi) <==> streaks::streaks(
                StreakKind::Errored,
                a,
            ).contains((lo, hi))
        }),
{
    let calls = sessions::calls_of(turns, members);
    let a = attempts::call_attempts(turns, members);
    lemma_call_attempts(turns, members);
    let kind = StreakKind::SameCallErrored;
    let keep = streaks::kept(kind, a);
    let same = streaks::joined(kind, a);
    lemma_whole_stretches(keep, same);
    let all = streaks::streaks(kind, a);
    let long = |s: (int, int)| s.1 - s.0 >= streaks::MIN_RETRY_LEN;
    if keeps_failing(turns, calls, lo, hi) && hi - lo >= 3 {
        assert forall|k: int| lo <= k < hi implies #[trigger] keep[k] by {
            assert(failed(turns, calls, k));
        }
        assert forall|k: int| lo <= k < hi implies #[trigger] same(lo, k) by {
            assert(repeats(turns, calls, lo, k));
        }
        assert(is_whole(keep, same, lo, hi));
        lemma_pick_both(all, long, (lo, hi));
    }
    if streaks::retry_streaks(a).contains((lo, hi)) {
        lemma_pick_both(all, long, (lo, hi));
        let i = choose|i: int| 0 <= i < all.len() && all[i] == (lo, hi);
        assert(is_whole(keep, same, all[i].0, all[i].1));
        assert forall|k: int| lo <= k < hi implies #[trigger] failed(turns, calls, k) by {
            assert(keep[k]);
        }
        assert forall|k: int| lo <= k < hi implies #[trigger] repeats(turns, calls, lo, k) by {
            assert(same(lo, k));
        }
    }
    let keep2 = streaks::kept(StreakKind::Errored, a);
    let same2 = streaks::joined(StreakKind::Errored, a);
    lemma_whole_stretches(keep2, same2);
    let all2 = streaks::streaks(StreakKind::Errored, a);
    if all_failing(turns, calls, lo, hi) {
        assert forall|k: int| lo <= k < hi implies #[trigger] keep2[k] by {
            assert(failed(turns, calls, k));
        }
        assert(is_whole(keep2, same2, lo, hi));
    }
    if all2.contains((lo, hi)) {
        let i = choose|i: int| 0 <= i < all2.len() && all2[i] == (lo, hi);
        assert(is_whole(keep2, same2, all2[i].0, all2[i].1));
        assert forall|k: int| lo <= k < hi implies #[trigger] failed(turns, calls, k) by {
            assert(keep2[k]);
        }
    }
}

/// Picking keeps what is asked for and nothing else.
pub proof fn lemma_pick_both<T>(s: Seq<T>, p: spec_fn(T) -> bool, x: T)
    ensures
        streaks::pick(s, p).contains(x) <==> s.contains(x) && p(x),
    decreases s.len(),
{
    let all = streaks::pick(s, p);
    if s.len() > 0 {
        let d = s.drop_last();
        let rest = streaks::pick(d, p);
        lemma_pick_both(d, p, x);
        if s.contains(x) && p(x) {
            let i = choose|i: int| 0 <= i < s.len() && s[i] == x;
            if i < d.len() {
                assert(d[i] == x);
                let k = choose|k: int| 0 <= k < rest.len() && rest[k] == x;
                assert(all[k] == x);
            } else {
                assert(all[all.len() - 1] == x);
            }
        }
        if all.contains(x) {
            let k = choose|k: int| 0 <= k < all.len() && all[k] == x;
            if k < rest.len() {
                assert(rest[k] == x);
                let i = choose|i: int| 0 <= i < d.len() && d[i] == x;
                assert(s[i] == x);
            } else {
                assert(s[s.len() - 1] == x);
            }
        }
    }
}

/// Whether the retry loop tells of the calls from `lo` up to `hi`.
pub open spec fn tells_loop(
    r: RetryLoop,
    session: Seq<char>,
    turns: Seq<TurnRecord>,
    calls: Seq<(int, int)>,
    lo: int,
    hi: int,
) -> bool {
    &&& r.session_id@ == session
    &&& r.tool@ == call_of(turns, calls, lo).name@
    &&& r.args_hash@ == call_of(turns, calls, lo).args_hash@
    &&& match (r.target, call_of(turns, calls, lo).target) {
        (Some(a), Some(b)) => a@ == b@,
        (None, None) => true,
        _ => false,
    }
    &&& r.attempts == hi - lo
    &&& r.start_turn_index == turns[calls[lo].0].turn_index
    &&& r.end_turn_index == turns[calls[hi - 1].0].turn_index
    &&& r.event_source is None
}

/// A call that fails three times or more in a row is reported as a retry loop,
/// with the number of its attempts.
pub proof fn lemma_retry_loops(
    f: SessionFindings,
    turns: Seq<TurnRecord>,
    opts: DetectPatternsOptions,
    g: int,
    lo: int,
    hi: int,
) -> (p: int)
    requires
        f.covers(turns, opts, sessions::sessions_of(turns)),
        0 <= g < sessions::sessions_of(turns).len(),
        unreported(opts.tool_result_events@, sessions::sessions_of(turns)[g].0),
        keeps_failing(
            turns,
            sessions::calls_of(turns, sessions::sessions_of(turns)[g].1),
            lo,
            hi,
        ),
        hi - lo >= 3,
    ensures
        0 <= p < f.retry_loops@.len(),
        tells_loop(
            f.retry_loops@[p],
            sessions::sessions_of(turns)[g].0,
            turns,
            sessions::calls_of(turns, sessions::sessions_of(turns)[g].1),
            lo,
            hi,
        ),
{
    let all = sessions::sessions_of(turns);
    let s = all[g];
    let ev = opts.tool_result_events@;
    let a = attempts::call_attempts(turns, s.1);
    lemma_unreported(ev, s.0);
    lemma_call_attempts(turns, s.1);
    lemma_keeps_failing(turns, s.1, lo, hi);
    let found = streaks::retry_streaks(a);
    let k = choose|k: int| 0 <= k < found.len() && found[k] == (lo, hi);
    let lists = all.map_values(|g: (Seq<char>, Seq<usize>)| patterns::retries_in(turns, ev, g));
    assert(lists[g] == patterns::retries_in(turns, ev, s));
    let streak = a.subrange(lo, hi);
    assert(lists[g][k] == In { session: s.0, members: s.1, item: streak });
    assert(streak[0] == a[lo]);
    assert(streak.last() == a[hi - 1]);
    laws::edits::lemma_in_chain(
        f.retry_loops@,
        lists,
        patterns::retry_rule(turns, opts.content_by_session@, ev),
        g,
        k,
    )
}

/// No retry loop is reported for a session without reports but for a call that
/// failed three times or more in a row.
pub proof fn lemma_only_retry_loops(
    f: SessionFindings,
    turns: Seq<TurnRecord>,
    opts: DetectPatternsOptions,
    p: int,
) -> (r: (int, int, int))
    requires
        f.covers(turns, opts, sessions::sessions_of(turns)),
        0 <= p < f.retry_loops@.len(),
    ensures
        ({
            let s = sessions::sessions_of(turns)[r.0];
            let calls = sessions::calls_of(turns, s.1);
            &&& 0 <= r.0 < sessions::sessions_of(turns).len()
            &&& f.retry_loops@[p].session_id@ == s.0
            &&& f.retry_loops@[p].attempts >= 3
            &&& unreported(opts.tool_result_events@, s.0) ==> keeps_failing(turns, calls, r.1, r.2)
                && tells_loop(f.retry_loops@[p], s.0, turns, calls, r.1, r.2)
        }),
{
    let all = sessions::sessions_of(turns);
    let ev = opts.tool_result_events@;
    let lists = all.map_values(|g: (Seq<char>, Seq<usize>)| patterns::retries_in(turns, ev, g));
    let (g, k) = laws::edits::lemma_from_chain(
        f.retry_loops@,
        lists,
        patterns::retry_rule(turns, opts.content_by_session@, ev),
        p,
    );
    let s = all[g];
    let a = patterns::attempts_of(turns, ev, s);
    let found = streaks::retry_streaks(a);
    assert(lists[g] == patterns::retries_in(turns, ev, s));
    let (lo, hi) = found[k];
    let streak = streaks::members_of(a, found[k]);
    assert(lists[g][k] == In { session: s.0, members: s.1, item: streak });
    let kind = StreakKind::SameCallErrored;
    let long = |s: (int, int)| s.1 - s.0 >= streaks::MIN_RETRY_LEN;
    assert(found.contains((lo, hi)));
    lemma_pick_both(streaks::streaks(kind, a), long, (lo, hi));
    streaks::lemma_streaks(streaks::kept(kind, a), streaks::joined(kind, a));
    let i = choose|i: int|
        0 <= i < streaks::streaks(kind, a).len() && streaks::streaks(kind, a)[i] == (lo, hi);
    assert(streaks::is_streak(
        streaks::streaks(kind, a)[i],
        streaks::kept(kind, a),
        streaks::joined(kind, a),
    ));
    assert(streak.len() == hi - lo);
    if unreported(ev, s.0) {
        lemma_unreported(ev, s.0);
        lemma_call_attempts(turns, s.1);
        lemma_keeps_failing(turns, s.1, lo, hi);
        assert(streak[0] == a[lo]);
        assert(streak.last() == a[hi - 1]);
    }
    (g, lo, hi)
}

/// The tool and the arguments of a call in one text.
pub open spec fn key_of(turns: Seq<TurnRecord>, calls: Seq<(int, int)>, i: int) -> Seq<char> {
    call_of(turns, calls, i).name@ + "|"@ + call_of(turns, calls, i).args_hash@
}

/// Whether the failure run tells of the calls from `lo` up to `hi`.
pub open spec fn tells_run(
    r: FailureRun,
    session: Seq<char>,
    turns: Seq<TurnRecord>,
    calls: Seq<(int, int)>,
    lo: int,
    hi: int,
) -> bool {
    &&& r.session_id@ == session
    &&& r.length == hi - lo
    &&& r.start_turn_index == turns[calls[lo].0].turn_index
    &&& r.end_turn_index == turns[calls[hi - 1].0].turn_index
    &&& r.event_source is None
}

/// Three or more failures in a row that are not all the same call are reported
/// as a failure run, with their number.
pub proof fn lemma_failure_runs(
    f: SessionFindings,
    turns: Seq<TurnRecord>,
    opts: DetectPatternsOptions,
    g: int,
    lo: int,
    hi: int,
    other: int,
) -> (p: int)
    requires
        f.covers(turns, opts, sessions::sessions_of(turns)),
        0 <= g < sessions::sessions_of(turns).len(),
        unreported(opts.tool_result_events@, sessions::sessions_of(turns)[g].0),
        all_failing(turns, sessions::calls_of(turns, sessions::sessions_of(turns)[g].1), lo, hi),
        hi - lo >= 3,
        lo <= other < hi,
        key_of(turns, sessions::calls_of(turns, sessions::sessions_of(turns)[g].1), other)
            != key_of(turns, sessions::calls_of(turns, sessions::sessions_of(turns)[g].1), lo),
    ensures
        0 <= p < f.failure_runs@.len(),
        tells_run(
            f.failure_runs@[p],
            sessions::sessions_of(turns)[g].0,
            turns,
            sessions::calls_of(turns, sessions::sessions_of(turns)[g].1),
            lo,
            hi,
        ),
{
    let all = sessions::sessions_of(turns);
    let s = all[g];
    let ev = opts.tool_result_events@;
    let a = attempts::call_attempts(turns, s.1);
    let calls = sessions::calls_of(turns, s.1);
    lemma_unreported(ev, s.0);
    lemma_call_attempts(turns, s.1);
    lemma_keeps_failing(turns, s.1, lo, hi);
    let streak = streaks::members_of(a, (lo, hi));
    assert(streak[0] == a[lo]);
    assert(streak.last() == a[hi - 1]);
    assert(streak[other - lo] == a[other]);
    assert(!streaks::one_key(streak)) by {
        assert(streaks::attempt_key(streak[other - lo]) == key_of(turns, calls, other));
        assert(streaks::attempt_key(streak[0]) == key_of(turns, calls, lo));
    }
    let run = |s: (int, int)| streaks::is_run(streaks::members_of(a, s), false);
    lemma_pick_both(streaks::streaks(StreakKind::Errored, a), run, (lo, hi));
    let found = streaks::failure_streaks(a, false);
    let k = choose|k: int| 0 <= k < found.len() && found[k] == (lo, hi);
    let lists = all.map_values(|g: (Seq<char>, Seq<usize>)| patterns::failures_in(turns, ev, g));
    assert(lists[g] == patterns::failures_in(turns, ev, s));
    assert(lists[g][k] == In { session: s.0, members: s.1, item: streak });
    laws::edits::lemma_in_chain(
        f.failure_runs@,
        lists,
        patterns::failure_rule(turns, opts.content_by_session@, ev),
        g,
        k,
    )
}

/// No failure run is reported for a session without reports but for three or
/// more failures in a row that are not all the same call.
pub proof fn lemma_only_failure_runs(
    f: SessionFindings,
    turns: Seq<TurnRecord>,
    opts: DetectPatternsOptions,
    p: int,
) -> (r: (int, int, int))
    requires
        f.covers(turns, opts, sessions::sessions_of(turns)),
        0 <= p < f.failure_runs@.len(),
    ensures
        ({
            let s = sessions::sessions_of(turns)[r.0];
            let calls = sessions::calls_of(turns, s.1);
            &&& 0 <= r.0 < sessions::sessions_of(turns).len()
            &&& f.failure_runs@[p].session_id@ == s.0
            &&& f.failure_runs@[p].length >= 3
            &&& unreported(opts.tool_result_events@, s.0) ==> all_failing(turns, calls, r.1, r.2)
                && tells_run(f.failure_runs@[p], s.0, turns, calls, r.1, r.2) && exists|k: int|
                r.1 <= k < r.2 && #[trigger] key_of(turns, calls, k) != key_of(turns, calls, r.1)
        }),
{
    let all = sessions::sessions_of(turns);
    let ev = opts.tool_result_events@;
    let lists = all.map_values(|g: (Seq<char>, Seq<usize>)| patterns::failures_in(turns, ev, g));
    let (g, k) = laws::edits::lemma_from_chain(
        f.failure_runs@,
        lists,
        patterns::failure_rule(turns, opts.content_by_session@, ev),
        p,
    );
    let s = all[g];
    let a = patterns::attempts_of(turns, ev, s);
    let graph = patterns::is_reported(ev, s.0);
    let found = streaks::failure_streaks(a, graph);
    assert(lists[g] == patterns::failures_in(turns, ev, s));
    let (lo, hi) = found[k];
    let streak = streaks::members_of(a, found[k]);
    assert(lists[g][k] == In { session: s.0, members: s.1, item: streak });
    let run = |s: (int, int)| streaks::is_run(streaks::members_of(a, s), graph);
    assert(found.contains((lo, hi)));
    lemma_pick_both(streaks::streaks(StreakKind::Errored, a), run, (lo, hi));
    if unreported(ev, s.0) {
        let calls = sessions::calls_of(turns, s.1);
        lemma_unreported(ev, s.0);
        lemma_call_attempts(turns, s.1);
        lemma_keeps_failing(turns, s.1, lo, hi);
        assert(streak[0] == a[lo]);
        assert(streak.last() == a[hi - 1]);
        let q = choose|q: int|
            0 <= q < streak.len() && streaks::attempt_key(#[trigger] streak[q])
                != streaks::attempt_key(streak[0]);
        assert(streak[q] == a[lo + q]);
        assert(key_of(turns, calls, lo + q) == streaks::attempt_key(streak[q]));
        assert(key_of(turns, calls, lo) == streaks::attempt_key(streak[0]));
    }
    (g, lo, hi)
}

} // verus!
