//! Edits that are taken back, and sessions that edit far more than they read.

use crate::compaction;
use crate::edits;
use crate::findings::EditRevertCycle;
use crate::laws;
use crate::patterns;
use crate::patterns::{DetectPatternsOptions, In, SessionFindings};
use crate::records::{
    ContentKind, ContentRecord, InputField, SourceKind, ToolCall, TurnRecord,
};
use crate::sessions;
use crate::shell;
use crate::streaks;
use crate::text;
use vstd::prelude::*;

verus! {

/// Whether the call changed the file: it is an edit, a write or an edit of a
/// notebook, and it did not fail.
pub open spec fn changed(call: ToolCall, file: Seq<char>) -> bool {
    &&& call.name@ == "Edit"@ || call.name@ == "Write"@ || call.name@ == "NotebookEdit"@
    &&& call.is_error != Some(true)
    &&& call.target matches Some(t) && t@ == file
}

/// Whether the second call left the file as the first one had found it.
pub open spec fn took_back(a: ToolCall, b: ToolCall) -> bool {
    match (a.edit_pre_hash, b.edit_post_hash) {
        (Some(pre), Some(post)) => pre@ == post@,
        _ => false,
    }
}

/// The call at the position.
pub open spec fn call_of(turns: Seq<TurnRecord>, calls: Seq<(int, int)>, i: int) -> ToolCall {
    turns[calls[i].0].tool_calls@[calls[i].1]
}

proof fn lemma_found_stays(turns: Seq<TurnRecord>, calls: Seq<(int, int)>, n: int, m: int)
    requires
        0 <= n <= m,
    ensures
        edits::revert_walk(turns, calls, n).found.len() <= edits::revert_walk(
            turns,
            calls,
            m,
        ).found.len(),
        forall|p: int|
            0 <= p < edits::revert_walk(turns, calls, n).found.len()
                ==> #[trigger] edits::revert_walk(turns, calls, m).found[p] == edits::revert_walk(
                turns,
                calls,
                n,
            ).found[p],
    decreases m,
{
    if n < m {
        lemma_found_stays(turns, calls, n, m - 1);
    }
}

proof fn lemma_pick_keeps<T>(s: Seq<T>, p: spec_fn(T) -> bool, x: T)
    requires
        s.contains(x),
        p(x),
    ensures
        streaks::pick(s, p).contains(x),
    decreases s.len(),
{
    let i = choose|i: int| 0 <= i < s.len() && s[i] == x;
    let d = s.drop_last();
    let all = streaks::pick(s, p);
    if i == s.len() - 1 {
        assert(all.last() == x);
        assert(all[all.len() - 1] == x);
    } else {
        assert(d[i] == x);
        lemma_pick_keeps(d, p, x);
        let k = choose|k: int|
            0 <= k < streaks::pick(d, p).len() && streaks::pick(d, p)[k] == x;
        assert(all[k] == x);
    }
}

proof fn lemma_some_reverted(
    turns: Seq<TurnRecord>,
    calls: Seq<(int, int)>,
    live: Seq<int>,
    a: int,
    b: int,
)
    requires
        live.contains(a),
        edits::is_reverted_by(turns, calls, a, b),
    ensures
        edits::first_reverted(turns, calls, live, b) is Some,
    decreases live.len(),
{
    let i = choose|i: int| 0 <= i < live.len() && live[i] == a;
    if i < live.len() - 1 {
        assert(live.drop_last()[i] == a);
        lemma_some_reverted(turns, calls, live.drop_last(), a, b);
    }
}

proof fn lemma_stays_live(
    turns: Seq<TurnRecord>,
    calls: Seq<(int, int)>,
    file: Seq<char>,
    i: int,
    n: int,
)
    requires
        0 <= i < n <= calls.len(),
        changed(call_of(turns, calls, i), file),
        forall|p: int|
            0 <= p < edits::revert_walk(turns, calls, n).found.len() && i <= (
            #[trigger] edits::revert_walk(turns, calls, n).found[p]).1 ==> !changed(
                call_of(turns, calls, edits::revert_walk(turns, calls, n).found[p].1),
                file,
            ),
    ensures
        edits::revert_walk(turns, calls, n).live.contains(i),
    decreases n,
{
    let st = edits::revert_walk(turns, calls, n - 1);
    let next = edits::revert_walk(turns, calls, n);
    let b = n - 1;
    lemma_found_stays(turns, calls, n - 1, n);
    let closes = edits::is_file_edit(edits::call_at(turns, calls[b])) && edits::first_reverted(
        turns,
        calls,
        st.live,
        b,
    ) is Some;
    if closes {
        assert(next.found[st.found.len() as int].1 == b);
        assert(!changed(call_of(turns, calls, b), file));
    }
    if n == i + 1 {
        assert(next.live[st.live.len() as int] == i);
    } else {
        assert forall|p: int| 0 <= p < st.found.len() && i <= (#[trigger] st.found[p]).1 implies !changed(
            call_of(turns, calls, st.found[p].1),
            file,
        ) by {
            assert(next.found[p] == st.found[p]);
        }
        lemma_stays_live(turns, calls, file, i, n - 1);
        let k = choose|k: int| 0 <= k < st.live.len() && st.live[k] == i;
        if closes {
            let p = |x: int|
                text::opt_view(edits::call_at(turns, calls[x]).target) != text::opt_view(
                    edits::call_at(turns, calls[b]).target,
                );
            assert(p(i));
            lemma_pick_keeps(st.live, p, i);
        } else if edits::is_file_edit(edits::call_at(turns, calls[b])) {
            assert(next.live[k] == i);
        }
    }
}

/// No edit that is taken back is missed: where one call changes a file, and a
/// later one leaves it as the first had found it, and no call in between or the
/// first one itself takes back a change of that file, the later call is found
/// to take one back.
pub proof fn lemma_reverts_are_found(
    turns: Seq<TurnRecord>,
    calls: Seq<(int, int)>,
    file: Seq<char>,
    i: int,
    j: int,
) -> (p: int)
    requires
        0 <= i < j < calls.len(),
        changed(call_of(turns, calls, i), file),
        changed(call_of(turns, calls, j), file),
        took_back(call_of(turns, calls, i), call_of(turns, calls, j)),
        forall|p: int|
            0 <= p < edits::reverts_of(turns, calls).len() && i <= (#[trigger] edits::reverts_of(
                turns,
                calls,
            )[p]).1 < j ==> !changed(
                call_of(turns, calls, edits::reverts_of(turns, calls)[p].1),
                file,
            ),
    ensures
        0 <= p < edits::reverts_of(turns, calls).len(),
        edits::reverts_of(turns, calls)[p].1 == j,
{
    let all = edits::reverts_of(turns, calls);
    let n = calls.len() as int;
    let st = edits::revert_walk(turns, calls, j);
    let next = edits::revert_walk(turns, calls, j + 1);
    lemma_found_stays(turns, calls, j, n);
    lemma_found_stays(turns, calls, j + 1, n);
    edits::lemma_reverts(turns, calls, j);
    assert forall|p: int| 0 <= p < st.found.len() && i <= (#[trigger] st.found[p]).1 implies !changed(
        call_of(turns, calls, st.found[p].1),
        file,
    ) by {
        assert(all[p] == st.found[p]);
    }
    lemma_stays_live(turns, calls, file, i, j);
    assert(edits::is_reverted_by(turns, calls, i, j));
    lemma_some_reverted(turns, calls, st.live, i, j);
    let p = st.found.len() as int;
    assert(next.found[p].1 == j);
    assert(all[p] == next.found[p]);
    p
}

proof fn lemma_live_changed(turns: Seq<TurnRecord>, calls: Seq<(int, int)>, n: int)
    requires
        0 <= n <= calls.len(),
    ensures
        forall|k: int|
            0 <= k < edits::revert_walk(turns, calls, n).live.len() ==> edits::is_file_edit(
                call_of(turns, calls, #[trigger] edits::revert_walk(turns, calls, n).live[k]),
            ),
        forall|p: int|
            0 <= p < edits::revert_walk(turns, calls, n).found.len() ==> edits::is_file_edit(
                call_of(turns, calls, (#[trigger] edits::revert_walk(turns, calls, n).found[p]).0),
            ) && edits::is_file_edit(
                call_of(turns, calls, edits::revert_walk(turns, calls, n).found[p].1),
            ),
    decreases n,
{
    if n > 0 {
        lemma_live_changed(turns, calls, n - 1);
        let st = edits::revert_walk(turns, calls, n - 1);
        let next = edits::revert_walk(turns, calls, n);
        let b = n - 1;
        if edits::is_file_edit(edits::call_at(turns, calls[b])) {
            match edits::first_reverted(turns, calls, st.live, b) {
                Some(a) => {
                    lemma_first_is_live(turns, calls, st.live, b);
                    let p = |x: int|
                        text::opt_view(edits::call_at(turns, calls[x]).target) != text::opt_view(
                            edits::call_at(turns, calls[b]).target,
                        );
                    lemma_picked(st.live, p);
                    assert forall|k: int| 0 <= k < next.live.len() implies edits::is_file_edit(
                        call_of(turns, calls, #[trigger] next.live[k]),
                    ) by {
                        assert(st.live.contains(next.live[k]));
                        let q = choose|q: int| 0 <= q < st.live.len() && st.live[q] == next.live[k];
                        assert(edits::is_file_edit(call_of(turns, calls, st.live[q])));
                    }
                    let q = choose|q: int| 0 <= q < st.live.len() && st.live[q] == a;
                    assert(edits::is_file_edit(call_of(turns, calls, st.live[q])));
                    assert forall|p: int| 0 <= p < next.found.len() implies edits::is_file_edit(
                        call_of(turns, calls, (#[trigger] next.found[p]).0),
                    ) && edits::is_file_edit(call_of(turns, calls, next.found[p].1)) by {
                        if p < st.found.len() {
                            assert(next.found[p] == st.found[p]);
                        }
                    }
                },
                None => {
                    assert forall|k: int| 0 <= k < next.live.len() implies edits::is_file_edit(
                        call_of(turns, calls, #[trigger] next.live[k]),
                    ) by {
                        if k < st.live.len() {
                            assert(next.live[k] == st.live[k]);
                        }
                    }
                },
            }
        }
    }
}

proof fn lemma_first_is_live(
    turns: Seq<TurnRecord>,
    calls: Seq<(int, int)>,
    live: Seq<int>,
    b: int,
)
    ensures
        edits::first_reverted(turns, calls, live, b) matches Some(a) ==> live.contains(a),
    decreases live.len(),
{
    if live.len() > 0 {
        let d = live.drop_last();
        lemma_first_is_live(turns, calls, d, b);
        match edits::first_reverted(turns, calls, d, b) {
            Some(a) => {
                let k = choose|k: int| 0 <= k < d.len() && d[k] == a;
                assert(live[k] == a);
            },
            None => {
                assert(live[live.len() - 1] == live.last());
            },
        }
    }
}

proof fn lemma_picked<T>(s: Seq<T>, p: spec_fn(T) -> bool)
    ensures
        forall|i: int|
            0 <= i < streaks::pick(s, p).len() ==> s.contains(#[trigger] streaks::pick(s, p)[i]),
    decreases s.len(),
{
    if s.len() > 0 {
        let d = s.drop_last();
        lemma_picked(d, p);
        assert forall|i: int| 0 <= i < streaks::pick(s, p).len() implies s.contains(
            #[trigger] streaks::pick(s, p)[i],
        ) by {
            if i < streaks::pick(d, p).len() {
                assert(d.contains(streaks::pick(d, p)[i]));
                let k = choose|k: int| 0 <= k < d.len() && d[k] == streaks::pick(d, p)[i];
                assert(s[k] == d[k]);
            } else {
                assert(s[s.len() - 1] == s.last());
            }
        }
    }
}

/// Every edit that is found to be taken back is one: both calls changed the
/// same file without failing, and the later left it as the earlier had found
/// it.
pub proof fn lemma_reverts_are_reverts(
    turns: Seq<TurnRecord>,
    calls: Seq<(int, int)>,
    p: int,
) -> (file: Seq<char>)
    requires
        0 <= p < edits::reverts_of(turns, calls).len(),
    ensures
        ({
            let r = edits::reverts_of(turns, calls)[p];
            &&& 0 <= r.0 < r.1 < calls.len()
            &&& changed(call_of(turns, calls, r.0), file)
            &&& changed(call_of(turns, calls, r.1), file)
            &&& took_back(call_of(turns, calls, r.0), call_of(turns, calls, r.1))
        }),
{
    let n = calls.len() as int;
    edits::lemma_reverts(turns, calls, n);
    lemma_live_changed(turns, calls, n);
    let r = edits::revert_walk(turns, calls, n).found[p];
    call_of(turns, calls, r.0).target->Some_0@
}

/// Where one list stands for a chain of lists, each element of each of these is
/// stood for.
pub proof fn lemma_in_chain<A, B>(
    found: Seq<A>,
    lists: Seq<Seq<B>>,
    rule: spec_fn(A, B) -> bool,
    g: int,
    k: int,
) -> (p: int)
    requires
        patterns::matched(found, compaction::chain(lists), rule),
        0 <= g < lists.len(),
        0 <= k < lists[g].len(),
    ensures
        0 <= p < found.len(),
        rule(found[p], lists[g][k]),
{
    let p = lemma_chain_at(lists, g, k);
    assert(rule(found[p], compaction::chain(lists)[p]));
    p
}

proof fn lemma_chain_at<B>(lists: Seq<Seq<B>>, g: int, k: int) -> (p: int)
    requires
        0 <= g < lists.len(),
        0 <= k < lists[g].len(),
    ensures
        0 <= p < compaction::chain(lists).len(),
        compaction::chain(lists)[p] == lists[g][k],
    decreases lists.len(),
{
    let d = lists.drop_last();
    if g == lists.len() - 1 {
        compaction::chain(d).len() + k
    } else {
        lemma_chain_at(d, g, k)
    }
}

/// Where one list stands for a chain of lists, it stands for nothing else.
pub proof fn lemma_from_chain<A, B>(
    found: Seq<A>,
    lists: Seq<Seq<B>>,
    rule: spec_fn(A, B) -> bool,
    p: int,
) -> (r: (int, int))
    requires
        patterns::matched(found, compaction::chain(lists), rule),
        0 <= p < found.len(),
    ensures
        0 <= r.0 < lists.len(),
        0 <= r.1 < lists[r.0].len(),
        rule(found[p], lists[r.0][r.1]),
{
    let r = lemma_chain_of(lists, p);
    assert(rule(found[p], compaction::chain(lists)[p]));
    r
}

proof fn lemma_chain_of<B>(lists: Seq<Seq<B>>, p: int) -> (r: (int, int))
    requires
        0 <= p < compaction::chain(lists).len(),
    ensures
        0 <= r.0 < lists.len(),
        0 <= r.1 < lists[r.0].len(),
        compaction::chain(lists)[p] == lists[r.0][r.1],
    decreases lists.len(),
{
    let d = lists.drop_last();
    let n = compaction::chain(d).len();
    if p < n {
        lemma_chain_of(d, p)
    } else {
        (lists.len() - 1, p - n)
    }
}

/// Whether the cycle tells of the two calls.
pub open spec fn tells_revert(
    c: EditRevertCycle,
    session: Seq<char>,
    turns: Seq<TurnRecord>,
    calls: Seq<(int, int)>,
    file: Seq<char>,
    a: int,
    b: int,
) -> bool {
    &&& c.session_id@ == session
    &&& c.file_path@ == file
    &&& c.first_edit_turn_index == turns[calls[a].0].turn_index
    &&& c.revert_turn_index == turns[calls[b].0].turn_index
    &&& c.span_turns == c.revert_turn_index - c.first_edit_turn_index
}

/// Each of the edits that are taken back is reported, and the report says which
/// file it was and in which turns that happened.
pub proof fn lemma_reverts_are_reported(
    f: SessionFindings,
    turns: Seq<TurnRecord>,
    opts: DetectPatternsOptions,
    g: int,
    file: Seq<char>,
    i: int,
    j: int,
) -> (r: (int, int))
    requires
        f.covers(turns, opts, sessions::sessions_of(turns)),
        0 <= g < sessions::sessions_of(turns).len(),
        ({
            let calls = sessions::calls_of(turns, sessions::sessions_of(turns)[g].1);
            &&& 0 <= i < j < calls.len()
            &&& changed(call_of(turns, calls, i), file)
            &&& changed(call_of(turns, calls, j), file)
            &&& took_back(call_of(turns, calls, i), call_of(turns, calls, j))
            &&& forall|p: int|
                0 <= p < edits::reverts_of(turns, calls).len() && i <= (
                #[trigger] edits::reverts_of(turns, calls)[p]).1 < j ==> !changed(
                    call_of(turns, calls, edits::reverts_of(turns, calls)[p].1),
                    file,
                )
        }),
    ensures
        ({
            let s = sessions::sessions_of(turns)[g];
            let calls = sessions::calls_of(turns, s.1);
            &&& 0 <= r.0 < f.edit_reverts@.len()
            &&& 0 <= r.1 < j
            &&& changed(call_of(turns, calls, r.1), file)
            &&& took_back(call_of(turns, calls, r.1), call_of(turns, calls, j))
            &&& tells_revert(f.edit_reverts@[r.0], s.0, turns, calls, file, r.1, j)
        }),
{
    let all = sessions::sessions_of(turns);
    let s = all[g];
    let calls = sessions::calls_of(turns, s.1);
    let k = lemma_reverts_are_found(turns, calls, file, i, j);
    let of = lemma_reverts_are_reverts(turns, calls, k);
    let lists = all.map_values(|g: (Seq<char>, Seq<usize>)| patterns::reverts_in(turns, g));
    let rule = patterns::revert_rule(turns, opts.content_by_session@);
    assert(lists[g] == patterns::reverts_in(turns, s));
    let p = lemma_in_chain(f.edit_reverts@, lists, rule, g, k);
    (p, edits::reverts_of(turns, calls)[k].0)
}

/// Whether the call reads a file: by its name in the shared vocabulary, or as a
/// Codex shell command that reads one.
pub open spec fn reads(turns: Seq<TurnRecord>, c: (int, int)) -> bool {
    let call = turns[c.0].tool_calls@[c.1];
    ||| call.common_name@ == "Read"@ || call.common_name@ == "NotebookRead"@
    ||| turns[c.0].source == SourceKind::Codex && (call.name@ == "exec_command"@ || call.name@
        == "shell"@) && (call.target matches Some(t) && shell::command_reads_file(t@))
}

/// Whether the call edits a file and reads none.
pub open spec fn writes(turns: Seq<TurnRecord>, c: (int, int)) -> bool {
    let call = turns[c.0].tool_calls@[c.1];
    &&& call.common_name@ == "Edit"@ || call.common_name@ == "Write"@ || call.common_name@
        == "NotebookEdit"@ || call.common_name@ == "MultiEdit"@
    &&& !reads(turns, c)
}

/// Picking is filtering.
pub proof fn lemma_pick_is_filter<T>(s: Seq<T>, p: spec_fn(T) -> bool, q: spec_fn(T) -> bool)
    requires
        forall|i: int| 0 <= i < s.len() ==> p(#[trigger] s[i]) == q(s[i]),
    ensures
        streaks::pick(s, p) == s.filter(q),
    decreases s.len(),
{
    reveal(Seq::filter);
    if s.len() > 0 {
        let d = s.drop_last();
        assert forall|i: int| 0 <= i < d.len() implies p(#[trigger] d[i]) == q(d[i]) by {
            assert(d[i] == s[i]);
        }
        lemma_pick_is_filter(d, p, q);
        assert(p(s[s.len() - 1]) == q(s[s.len() - 1]));
    } else {
        assert(s.filter(q) =~= s);
    }
}

/// A session is reported as edit-heavy where it makes five edits or more, and
/// more than four times as many as it makes reads.
pub proof fn lemma_edit_heavy(
    f: SessionFindings,
    turns: Seq<TurnRecord>,
    opts: DetectPatternsOptions,
    g: int,
)
    requires
        f.covers(turns, opts, sessions::sessions_of(turns)),
        0 <= g < sessions::sessions_of(turns).len(),
        ({
            let calls = sessions::calls_of(turns, sessions::sessions_of(turns)[g].1);
            let written = calls.filter(|c: (int, int)| writes(turns, c)).len();
            let read = calls.filter(|c: (int, int)| reads(turns, c)).len();
            written >= 5 && written > 4 * read
        }),
    ensures
        ({
            let s = sessions::sessions_of(turns)[g];
            let calls = sessions::calls_of(turns, s.1);
            exists|p: int|
                0 <= p < f.edit_heavy_sessions@.len() && (
                #[trigger] f.edit_heavy_sessions@[p]).session_id@ == s.0
                    && f.edit_heavy_sessions@[p].edit_count == calls.filter(
                    |c: (int, int)| writes(turns, c),
                ).len() && f.edit_heavy_sessions@[p].read_count == calls.filter(
                    |c: (int, int)| reads(turns, c),
                ).len()
        }),
{
    let all = sessions::sessions_of(turns);
    let s = all[g];
    let calls = sessions::calls_of(turns, s.1);
    lemma_heavy_counts(turns, calls);
    let lists = all.map_values(|g: (Seq<char>, Seq<usize>)| patterns::heavy_in(turns, g));
    assert(lists[g] == patterns::heavy_in(turns, s));
    assert(lists[g].len() == 1);
    let p = lemma_in_chain(f.edit_heavy_sessions@, lists, patterns::heavy_rule(turns), g, 0);
    assert(lists[g][0] == In { session: s.0, members: s.1, item: () });
}

proof fn lemma_heavy_counts(turns: Seq<TurnRecord>, calls: Seq<(int, int)>)
    ensures
        edits::edits_of(turns, calls) == calls.filter(|c: (int, int)| writes(turns, c)),
        edits::reads_of(turns, calls) == calls.filter(|c: (int, int)| reads(turns, c)),
{
    lemma_pick_is_filter(
        calls,
        |c: (int, int)| edits::counts_as_edit(edits::call_at(turns, c), turns[c.0].source),
        |c: (int, int)| writes(turns, c),
    );
    lemma_pick_is_filter(
        calls,
        |c: (int, int)| edits::counts_as_read(edits::call_at(turns, c), turns[c.0].source),
        |c: (int, int)| reads(turns, c),
    );
}

/// No other session is reported as edit-heavy.
pub proof fn lemma_only_edit_heavy(
    f: SessionFindings,
    turns: Seq<TurnRecord>,
    opts: DetectPatternsOptions,
    p: int,
) -> (g: int)
    requires
        f.covers(turns, opts, sessions::sessions_of(turns)),
        0 <= p < f.edit_heavy_sessions@.len(),
    ensures
        ({
            let s = sessions::sessions_of(turns)[g];
            let calls = sessions::calls_of(turns, s.1);
            let written = calls.filter(|c: (int, int)| writes(turns, c)).len();
            let read = calls.filter(|c: (int, int)| reads(turns, c)).len();
            let e = f.edit_heavy_sessions@[p];
            &&& 0 <= g < sessions::sessions_of(turns).len()
            &&& written >= 5 && written > 4 * read
            &&& e.session_id@ == s.0
            &&& e.edit_count == written
            &&& e.read_count == read
            &&& s.1.len() > 0
            &&& e.source == turns[s.1[0] as int].source
            &&& e.likely_retries == s.1.fold_left(
                0int,
                |n: int, m: usize| n + turns[m as int].edit_retries,
            )
        }),
{
    let all = sessions::sessions_of(turns);
    let lists = all.map_values(|g: (Seq<char>, Seq<usize>)| patterns::heavy_in(turns, g));
    let r = lemma_from_chain(f.edit_heavy_sessions@, lists, patterns::heavy_rule(turns), p);
    let s = all[r.0];
    assert(lists[r.0] == patterns::heavy_in(turns, s));
    assert(lists[r.0][r.1] == In { session: s.0, members: s.1, item: () });
    lemma_heavy_counts(turns, sessions::calls_of(turns, s.1));
    lemma_retries(turns, s.1);
    r.0
}

proof fn lemma_retries(turns: Seq<TurnRecord>, members: Seq<usize>)
    ensures
        edits::retries_of(turns, members) == members.fold_left(
            0int,
            |n: int, m: usize| n + turns[m as int].edit_retries,
        ),
    decreases members.len(),
{
    if members.len() > 0 {
        lemma_retries(turns, members.drop_last());
    }
}

/// Whether the field of that name holds the text: the first such field does, or
/// there is none, or it holds no text, and the text is empty.
pub open spec fn holds_field(input: Seq<InputField>, name: Seq<char>, t: Seq<char>) -> bool {
    ||| exists|k: int|
        0 <= k < input.len() && (#[trigger] input[k]).name@ == name && (input[k].text matches Some(
            x,
        ) && x@ == t || input[k].text is None && t == Seq::<char>::empty()) && forall|j: int|
            0 <= j < k ==> (#[trigger] input[j]).name@ != name
    ||| t == Seq::<char>::empty() && forall|j: int|
        0 <= j < input.len() ==> (#[trigger] input[j]).name@ != name
}

proof fn lemma_field(input: Seq<InputField>, name: Seq<char>, t: Seq<char>)
    requires
        holds_field(input, name, t),
    ensures
        edits::field_text(input, name) == t,
    decreases input.len(),
{
    if input.len() > 0 {
        let d = input.drop_first();
        if input[0].name@ != name {
            if exists|k: int|
                0 <= k < input.len() && (#[trigger] input[k]).name@ == name && (
                input[k].text matches Some(x) && x@ == t || input[k].text is None && t
                    == Seq::<char>::empty()) && forall|j: int|
                    0 <= j < k ==> (#[trigger] input[j]).name@ != name {
                let k = choose|k: int|
                    0 <= k < input.len() && (#[trigger] input[k]).name@ == name && (
                    input[k].text matches Some(x) && x@ == t || input[k].text is None && t
                        == Seq::<char>::empty()) && forall|j: int|
                        0 <= j < k ==> (#[trigger] input[j]).name@ != name;
                assert(d[k - 1] == input[k]);
                assert forall|j: int| 0 <= j < k - 1 implies (#[trigger] d[j]).name@ != name by {
                    assert(d[j] == input[j + 1]);
                }
            } else {
                assert forall|j: int| 0 <= j < d.len() implies (#[trigger] d[j]).name@ != name by {
                    assert(d[j] == input[j + 1]);
                }
            }
            lemma_field(d, name, t);
        }
    }
}

/// Whether the record captures the use of the tool.
pub open spec fn captures_use(c: ContentRecord, id: Seq<char>) -> bool {
    c.kind == ContentKind::ToolUse && (c.tool_use matches Some(u) && u.id@ == id)
}

proof fn lemma_first_use(content: Seq<ContentRecord>, id: Seq<char>, p: int)
    requires
        -1 <= p < content.len(),
        p >= 0 ==> captures_use(content[p], id) && forall|k: int|
            0 <= k < p ==> !captures_use(#[trigger] content[k], id),
        p < 0 ==> forall|k: int|
            0 <= k < content.len() ==> !captures_use(#[trigger] content[k], id),
    ensures
        edits::first_use(content, id) == (if p >= 0 {
            Some(content[p].tool_use->Some_0.input@)
        } else {
            None
        }),
    decreases content.len(),
{
    if content.len() > 0 {
        let d = content.drop_last();
        let l = content[content.len() - 1];
        if 0 <= p < d.len() {
            assert(d[p] == content[p]);
            assert forall|k: int| 0 <= k < p implies !captures_use(#[trigger] d[k], id) by {
                assert(d[k] == content[k]);
            }
            lemma_first_use(d, id, p);
        } else {
            assert forall|k: int| 0 <= k < d.len() implies !captures_use(#[trigger] d[k], id) by {
                assert(d[k] == content[k]);
            }
            lemma_first_use(d, id, -1);
            if p < 0 {
                assert(!captures_use(l, id));
            }
        }
    }
}

/// A text, or its first 199 characters and an ellipsis where it is longer than
/// 200.
pub open spec fn cut(t: Seq<char>) -> Seq<char> {
    if t.len() <= 200 {
        t
    } else {
        t.take(199) + seq!['\u{2026}']
    }
}

/// What an edit is shown as: the start of the text that it replaced, and of the
/// one that it put there, which for a file that is written is its content.
pub proof fn lemma_preview(
    content: Seq<ContentRecord>,
    id: Seq<char>,
    p: int,
    old_text: Seq<char>,
    new_text: Seq<char>,
    written: Seq<char>,
)
    requires
        0 <= p < content.len(),
        captures_use(content[p], id),
        forall|k: int| 0 <= k < p ==> !captures_use(#[trigger] content[k], id),
        holds_field(content[p].tool_use->Some_0.input@, "old_string"@, old_text),
        holds_field(content[p].tool_use->Some_0.input@, "new_string"@, new_text),
        holds_field(content[p].tool_use->Some_0.input@, "content"@, written),
    ensures
        ({
            let shown = edits::preview_of(edits::first_use(content, id));
            let put = if new_text.len() > 0 {
                new_text
            } else {
                written
            };
            &&& shown is None <==> old_text.len() == 0 && put.len() == 0
            &&& shown is Some ==> shown->Some_0 == (cut(old_text), cut(put))
        }),
{
    let input = content[p].tool_use->Some_0.input@;
    lemma_first_use(content, id, p);
    lemma_field(input, "old_string"@, old_text);
    lemma_field(input, "new_string"@, new_text);
    lemma_field(input, "content"@, written);
    let put = if new_text.len() > 0 {
        new_text
    } else {
        written
    };
    assert(text::truncated(old_text, 200) =~= cut(old_text));
    assert(text::truncated(put, 200) =~= cut(put));
}

/// An edit whose use was not captured is not shown.
pub proof fn lemma_no_preview(content: Seq<ContentRecord>, id: Seq<char>)
    requires
        forall|k: int| 0 <= k < content.len() ==> !captures_use(#[trigger] content[k], id),
    ensures
        edits::preview_of(edits::first_use(content, id)) is None,
{
    lemma_first_use(content, id, -1);
}

/// A revert shows the two edits where both can be shown, and costs the turns
/// that they were made in.
pub proof fn lemma_cycle_shows_edits(
    r: EditRevertCycle,
    session: Seq<char>,
    turns: Seq<TurnRecord>,
    calls: Seq<(int, int)>,
    p: (int, int),
    content: Seq<ContentRecord>,
)
    requires
        edits::is_cycle(r, session, turns, calls, p, content),
        0 <= calls[p.0].0 <= usize::MAX,
        0 <= calls[p.1].0 <= usize::MAX,
    ensures
        ({
            let a = turns[calls[p.0].0];
            let b = turns[calls[p.1].0];
            let first = edits::preview_of(
                edits::first_use(content, a.tool_calls@[calls[p.0].1].id@),
            );
            let second = edits::preview_of(
                edits::first_use(content, b.tool_calls@[calls[p.1].1].id@),
            );
            &&& r.sample_preview is Some <==> first is Some && second is Some
            &&& r.sample_preview is Some ==> first->Some_0 == (
                r.sample_preview->Some_0.first_edit.old@,
                r.sample_preview->Some_0.first_edit.new@,
            ) && second->Some_0 == (
                r.sample_preview->Some_0.revert.old@,
                r.sample_preview->Some_0.revert.new@,
            )
            &&& r.cost_turns@ == if laws::runs::same_key(a, b) {
                seq![calls[p.0].0 as usize]
            } else {
                seq![calls[p.0].0 as usize, calls[p.1].0 as usize]
            }
        }),
{
    let x = calls[p.0].0 as usize;
    let y = calls[p.1].0 as usize;
    let at = seq![x, y];
    let one = seq![x];
    assert(at.drop_last() =~= one);
    assert(one.drop_last() =~= Seq::<usize>::empty());
    assert(streaks::distinct_turns(turns, Seq::empty()) =~= Seq::<usize>::empty());
    assert(streaks::distinct_turns(turns, one) =~= one);
    let rest = streaks::distinct_turns(turns, at.drop_last());
    assert(rest[0] == x);
    assert(one.push(y) =~= at);
}

} // verus!
