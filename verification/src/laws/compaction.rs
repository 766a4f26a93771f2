//! What compactions drop.

use crate::compaction;
use crate::edits;
use crate::findings::CompactionLoss;
use crate::groups;
use crate::hotspots;
use crate::hotspots::BySession;
use crate::laws;
use crate::order;
use crate::patterns;
use crate::records::{CompactionEvent, ContentRecord, ToolCall, TurnRecord};
use crate::sessions;
use crate::streaks;
use crate::text;
use vstd::prelude::*;

verus! {

/// Whether event `a` is one of the same session and comes before event `b`.
pub open spec fn comes_before(events: Seq<CompactionEvent>, a: int, b: int) -> bool {
    &&& events[a].session_id@ == events[b].session_id@
    &&& text::str_lt(events[a].ts@, events[b].ts@) || (events[a].ts@ == events[b].ts@ && a < b)
}

/// Whether `prev` is the last event of its session before event `i`.
pub open spec fn is_last_before(
    events: Seq<CompactionEvent>,
    prev: Option<int>,
    i: int,
) -> bool {
    match prev {
        Some(p) => 0 <= p < events.len() && comes_before(events, p, i) && forall|k: int|
            0 <= k < events.len() && k != p && #[trigger] comes_before(events, k, i)
                ==> comes_before(events, k, p),
        None => forall|k: int| 0 <= k < events.len() ==> !#[trigger] comes_before(events, k, i),
    }
}

proof fn lemma_sooner_is_weak(events: Seq<CompactionEvent>)
    ensures
        order::strict_weak(compaction::sooner(events)),
{
    let lt = compaction::sooner(events);
    assert forall|a: usize| !#[trigger] lt(a, a) by {
        let x = events[a as int].ts@;
        text::lemma_str_lt(x, x, x);
    }
    assert forall|a: usize, b: usize, c: usize| #[trigger] lt(a, b) && #[trigger] lt(
        b,
        c,
    ) implies lt(a, c) by {
        text::lemma_str_lt(events[a as int].ts@, events[b as int].ts@, events[c as int].ts@);
    }
    assert forall|a: usize, b: usize, c: usize| #[trigger] lt(a, c) implies lt(a, b)
        || #[trigger] lt(b, c) by {
        text::lemma_str_lt(events[a as int].ts@, events[b as int].ts@, events[c as int].ts@);
        text::lemma_str_lt(events[b as int].ts@, events[a as int].ts@, events[c as int].ts@);
    }
}

proof fn lemma_not_both(events: Seq<CompactionEvent>, a: int, b: int)
    requires
        comes_before(events, a, b),
    ensures
        !comes_before(events, b, a),
{
    text::lemma_str_lt(events[a].ts@, events[b].ts@, events[a].ts@);
}

proof fn lemma_boundary(events: Seq<CompactionEvent>, prev: Option<int>, i: int) -> (r: (int, int))
    requires
        events.len() <= usize::MAX,
        0 <= i < events.len(),
        is_last_before(events, prev, i),
    ensures
        ({
            let lists = groups::groups_of(compaction::event_sessions(events)).map_values(
                |g: (Seq<char>, Seq<usize>)| compaction::boundaries(events, g.1),
            );
            &&& 0 <= r.0 < lists.len()
            &&& 0 <= r.1 < lists[r.0].len()
            &&& lists[r.0][r.1].1 == i
            &&& match prev {
                Some(p) => lists[r.0][r.1].0 == Some(p as usize),
                None => lists[r.0][r.1].0 is None,
            }
        }),
{
    let keys = compaction::event_sessions(events);
    let id = events[i].session_id@;
    assert(keys[i] == id);
    groups::lemma_first_seen(keys);
    groups::lemma_positions(keys, id);
    assert(groups::first_seen(keys).contains(id));
    let g = choose|g: int|
        0 <= g < groups::first_seen(keys).len() && groups::first_seen(keys)[g] == id;
    let members = groups::positions(keys, id);
    assert(groups::groups_of(keys)[g] == (id, members));
    let lt = compaction::sooner(events);
    lemma_sooner_is_weak(events);
    laws::sessions::lemma_sorted_positions(members, lt);
    let sorted = order::stable_sort(members, lt);
    assert(members.contains(i as usize));
    assert(sorted.contains(i as usize));
    let k = choose|k: int| 0 <= k < sorted.len() && sorted[k] == i as usize;
    assert forall|a: int, b: int| 0 <= a < b < sorted.len() implies #[trigger] comes_before(
        events,
        sorted[a] as int,
        sorted[b] as int,
    ) by {
        let x = sorted[a];
        let y = sorted[b];
        assert(sorted.contains(x) && sorted.contains(y));
        assert(members.contains(x) && members.contains(y));
        let p = choose|p: int| 0 <= p < members.len() && members[p] == x;
        let q = choose|q: int| 0 <= q < members.len() && members[q] == y;
        assert(keys[members[p] as int] == id);
        assert(keys[members[q] as int] == id);
        assert(lt(x, y) || (!lt(y, x) && x < y));
        text::lemma_str_lt(events[x as int].ts@, events[y as int].ts@, events[x as int].ts@);
    }
    if prev is Some {
        let p = prev->Some_0;
        assert(keys[p] == id);
        assert(members.contains(p as usize));
        assert(sorted.contains(p as usize));
        let j = choose|j: int| 0 <= j < sorted.len() && sorted[j] == p as usize;
        if j > k {
            assert(comes_before(events, sorted[k] as int, sorted[j] as int));
            lemma_not_both(events, p, i);
        }
        lemma_not_itself(events, i);
        assert(j < k);
        if j < k - 1 {
            let z = sorted[k - 1] as int;
            assert(comes_before(events, sorted[k - 1] as int, sorted[k] as int));
            assert(comes_before(events, sorted[j] as int, sorted[k - 1] as int));
            assert(sorted.contains(sorted[k - 1]));
            assert(members.contains(sorted[k - 1]));
            lemma_not_both(events, p, z);
            lemma_not_itself(events, z);
            assert(comes_before(events, z, i));
            assert(z < events.len());
            assert(false);
        }
    } else if k > 0 {
        assert(comes_before(events, sorted[k - 1] as int, sorted[k] as int));
        assert(sorted.contains(sorted[k - 1]));
        assert(members.contains(sorted[k - 1]));
        let p = choose|p: int| 0 <= p < members.len() && members[p] == sorted[k - 1];
        assert(members[p] < keys.len());
        assert(false);
    }
    (g, k)
}

proof fn lemma_not_itself(events: Seq<CompactionEvent>, a: int)
    ensures
        !comes_before(events, a, a),
{
    text::lemma_str_lt(events[a].ts@, events[a].ts@, events[a].ts@);
}

/// Whether the time is behind the one and not behind the other.
pub open spec fn is_between(ts: Seq<char>, start: Option<Seq<char>>, end: Seq<char>) -> bool {
    &&& start is Some ==> text::str_lt(start->Some_0, ts)
    &&& ts == end || text::str_lt(ts, end)
}

/// Whether the call was made in between.
pub open spec fn is_inside(
    turns: Seq<TurnRecord>,
    c: (int, int),
    start: Option<Seq<char>>,
    end: Seq<char>,
) -> bool {
    is_between(turns[c.0].ts@, start, end)
}

/// The call.
pub open spec fn call_of(turns: Seq<TurnRecord>, c: (int, int)) -> ToolCall {
    turns[c.0].tool_calls@[c.1]
}

/// Whether the call edits a file.
pub open spec fn writes(turns: Seq<TurnRecord>, c: (int, int)) -> bool {
    let name = call_of(turns, c).common_name@;
    name == "Edit"@ || name == "Write"@ || name == "NotebookEdit"@ || name == "MultiEdit"@
}

/// Whether the call reads a file.
pub open spec fn reads(turns: Seq<TurnRecord>, c: (int, int)) -> bool {
    let name = call_of(turns, c).common_name@;
    name == "Read"@ || name == "NotebookRead"@
}

proof fn lemma_pick_append<T>(a: Seq<T>, b: Seq<T>, q: spec_fn(T) -> bool)
    ensures
        streaks::pick(a + b, q) == streaks::pick(a, q) + streaks::pick(b, q),
    decreases b.len(),
{
    if b.len() == 0 {
        assert(a + b =~= a);
        assert(streaks::pick(a, q) + streaks::pick(b, q) =~= streaks::pick(a, q));
    } else {
        let d = b.drop_last();
        lemma_pick_append(a, d, q);
        assert((a + b).drop_last() =~= a + d);
        assert(streaks::pick(a + b, q) =~= streaks::pick(a, q) + streaks::pick(b, q));
    }
}

proof fn lemma_window(
    turns: Seq<TurnRecord>,
    members: Seq<usize>,
    p: spec_fn(usize) -> bool,
    q: spec_fn((int, int)) -> bool,
    both: spec_fn((int, int)) -> bool,
)
    requires
        forall|c: (int, int)|
            0 <= c.0 <= usize::MAX ==> #[trigger] both(c) == (p(c.0 as usize) && q(c)),
    ensures
        streaks::pick(sessions::calls_of(turns, streaks::pick(members, p)), q)
            == sessions::calls_of(turns, members).filter(both),
    decreases members.len(),
{
    reveal(Seq::filter);
    if members.len() > 0 {
        let d = members.drop_last();
        let m = members.last();
        lemma_window(turns, d, p, q, both);
        let own = Seq::new(turns[m as int].tool_calls@.len(), |j: int| (m as int, j));
        Seq::filter_distributes_over_add(sessions::calls_of(turns, d), own, both);
        if p(m) {
            let kept = streaks::pick(d, p);
            assert(streaks::pick(members, p).drop_last() =~= kept);
            lemma_pick_append(sessions::calls_of(turns, kept), own, q);
            laws::edits::lemma_pick_is_filter(own, q, both);
        } else {
            lemma_none_kept(own, both);
            assert(sessions::calls_of(turns, d).filter(both) + Seq::<(int, int)>::empty()
                =~= sessions::calls_of(turns, d).filter(both));
        }
    }
}

/// Nothing is left where everything is dropped.
pub proof fn lemma_none_kept<T>(s: Seq<T>, p: spec_fn(T) -> bool)
    requires
        forall|i: int| 0 <= i < s.len() ==> !p(#[trigger] s[i]),
    ensures
        s.filter(p) == Seq::<T>::empty(),
    decreases s.len(),
{
    reveal(Seq::filter);
    if s.len() > 0 {
        let d = s.drop_last();
        assert forall|i: int| 0 <= i < d.len() implies !p(#[trigger] d[i]) by {
            assert(d[i] == s[i]);
        }
        lemma_none_kept(d, p);
        assert(!p(s[s.len() - 1]));
    }
}

/// Every compaction is reported with its session, its time and the tokens that
/// it dropped. Where content was kept for its session, so is the work that was
/// done since the compaction before it: how often a command was run, and a file
/// edited or read. Where it dropped tokens, the last turn of the message before
/// it prices them.
pub proof fn lemma_losses(
    found: Seq<CompactionLoss>,
    events: Seq<CompactionEvent>,
    turns: Seq<TurnRecord>,
    content: Seq<BySession<ContentRecord>>,
    prev: Option<int>,
    i: int,
    g: int,
) -> (p: int)
    requires
        patterns::matched(
            found,
            compaction::compactions_of(events),
            patterns::loss_rule(turns, content, events),
        ),
        events.len() <= usize::MAX,
        turns.len() <= usize::MAX,
        0 <= i < events.len(),
        is_last_before(events, prev, i),
        0 <= g < sessions::sessions_of(turns).len(),
        sessions::sessions_of(turns)[g].0 == events[i].session_id@,
    ensures
        0 <= p < found.len(),
        ({
            let e = events[i];
            let r = found[p];
            let start = match prev {
                Some(q) => Some(events[q].ts@),
                None => None,
            };
            let calls = sessions::calls_of(turns, sessions::sessions_of(turns)[g].1);
            &&& r.session_id@ == e.session_id@
            &&& r.ts@ == e.ts@
            &&& r.preceding_message_id is Some == e.preceding_message_id is Some
            &&& e.preceding_message_id is Some ==> r.preceding_message_id->Some_0@
                == e.preceding_message_id->Some_0@
            &&& e.tokens_before_compact is Some ==> r.tokens_before_compact
                == e.tokens_before_compact->Some_0
            &&& e.tokens_before_compact is None ==> r.tokens_before_compact == 0
            &&& r.lost_work is Some <==> exists|k: int|
                0 <= k < content.len() && (#[trigger] content[k]).session_id@ == e.session_id@
            &&& r.lost_work is Some ==> {
                let w = r.lost_work->Some_0;
                &&& w.bash_count == calls.filter(
                    |c: (int, int)|
                        is_inside(turns, c, start, e.ts@) && call_of(turns, c).common_name@
                            == "Bash"@,
                ).len()
                &&& w.edit_count == calls.filter(
                    |c: (int, int)| is_inside(turns, c, start, e.ts@) && writes(turns, c),
                ).len()
                &&& w.read_count == calls.filter(
                    |c: (int, int)| is_inside(turns, c, start, e.ts@) && reads(turns, c),
                ).len()
            }
        }),
{
    let (h, k) = lemma_boundary(events, prev, i);
    let lists = groups::groups_of(compaction::event_sessions(events)).map_values(
        |g: (Seq<char>, Seq<usize>)| compaction::boundaries(events, g.1),
    );
    let p = laws::edits::lemma_in_chain(
        found,
        lists,
        patterns::loss_rule(turns, content, events),
        h,
        k,
    );
    let e = events[i];
    let start = match prev {
        Some(q) => Some(events[q].ts@),
        None => None,
    };
    lemma_slot_known(content, e.session_id@);
    let m = sessions::sessions_of(turns)[g].1;
    assert(m == compaction::turns_of_session(turns, e.session_id@));
    let inside = |m: usize| compaction::in_window(turns[m as int].ts@, start, e.ts@);
    assert forall|c: (int, int)| 0 <= c.0 <= usize::MAX implies #[trigger] is_inside(
        turns,
        c,
        start,
        e.ts@,
    ) == inside(c.0 as usize) by {
        text::lemma_str_lt(turns[c.0].ts@, e.ts@, turns[c.0].ts@);
    }
    lemma_window(
        turns,
        m,
        inside,
        |c: (int, int)| edits::call_at(turns, c).common_name@ == "Bash"@,
        |c: (int, int)|
            is_inside(turns, c, start, e.ts@) && call_of(turns, c).common_name@ == "Bash"@,
    );
    lemma_window(
        turns,
        m,
        inside,
        |c: (int, int)| edits::is_edit_name(edits::call_at(turns, c).common_name@),
        |c: (int, int)| is_inside(turns, c, start, e.ts@) && writes(turns, c),
    );
    lemma_window(
        turns,
        m,
        inside,
        |c: (int, int)| edits::is_read_name(edits::call_at(turns, c).common_name@),
        |c: (int, int)| is_inside(turns, c, start, e.ts@) && reads(turns, c),
    );
    p
}

proof fn lemma_slot_known<T>(lists: Seq<BySession<T>>, id: Seq<char>)
    ensures
        0 <= hotspots::session_slot(lists, id) <= lists.len(),
        hotspots::session_slot(lists, id) < lists.len() <==> exists|k: int|
            0 <= k < lists.len() && (#[trigger] lists[k]).session_id@ == id,
    decreases lists.len(),
{
    if lists.len() > 0 && lists[0].session_id@ != id {
        let d = lists.drop_first();
        lemma_slot_known(d, id);
        if exists|k: int| 0 <= k < lists.len() && (#[trigger] lists[k]).session_id@ == id {
            let k = choose|k: int|
                0 <= k < lists.len() && (#[trigger] lists[k]).session_id@ == id;
            assert(d[k - 1] == lists[k]);
        }
        if exists|k: int| 0 <= k < d.len() && (#[trigger] d[k]).session_id@ == id {
            let k = choose|k: int| 0 <= k < d.len() && (#[trigger] d[k]).session_id@ == id;
            assert(lists[k + 1] == d[k]);
        }
    }
}

proof fn lemma_last_message(turns: Seq<TurnRecord>, id: Seq<char>, t: int)
    requires
        turns.len() <= usize::MAX,
        0 <= t < turns.len(),
        turns[t].message_id@ == id,
        forall|k: int| t < k < turns.len() ==> (#[trigger] turns[k]).message_id@ != id,
    ensures
        compaction::last_with_message(turns, id) == Some(t as usize),
    decreases turns.len(),
{
    if t < turns.len() - 1 {
        assert(turns[turns.len() - 1].message_id@ != id);
        let d = turns.drop_last();
        assert(d[t] == turns[t]);
        assert forall|k: int| t < k < d.len() implies (#[trigger] d[k]).message_id@ != id by {
            assert(d[k] == turns[k]);
        }
        lemma_last_message(d, id, t);
    }
}

proof fn lemma_no_message(turns: Seq<TurnRecord>, id: Seq<char>)
    requires
        forall|k: int| 0 <= k < turns.len() ==> (#[trigger] turns[k]).message_id@ != id,
    ensures
        compaction::last_with_message(turns, id) is None,
    decreases turns.len(),
{
    if turns.len() > 0 {
        let d = turns.drop_last();
        assert(turns[turns.len() - 1].message_id@ != id);
        assert forall|k: int| 0 <= k < d.len() implies (#[trigger] d[k]).message_id@ != id by {
            assert(d[k] == turns[k]);
        }
        lemma_no_message(d, id);
    }
}

/// What a compaction dropped is priced by the last turn of the message before
/// it, and by none where it dropped nothing, or nothing says what came before.
pub proof fn lemma_priced_by(
    r: CompactionLoss,
    events: Seq<CompactionEvent>,
    turns: Seq<TurnRecord>,
    content: Seq<BySession<ContentRecord>>,
    c: (Option<usize>, usize),
    t: int,
)
    requires
        compaction::is_loss(r, events, turns, content, c),
        turns.len() <= usize::MAX,
        0 <= t < turns.len(),
    ensures
        ({
            let e = events[c.1 as int];
            let dropped = e.tokens_before_compact is Some && e.tokens_before_compact->Some_0 > 0;
            let id = e.preceding_message_id->Some_0@;
            &&& !dropped || e.preceding_message_id is None ==> r.priced_by is None
            &&& dropped && e.preceding_message_id is Some ==> {
                &&& turns[t].message_id@ == id && (forall|k: int|
                    t < k < turns.len() ==> (#[trigger] turns[k]).message_id@ != id)
                    ==> r.priced_by == Some(t as usize)
                &&& (forall|k: int|
                    0 <= k < turns.len() ==> (#[trigger] turns[k]).message_id@ != id)
                    ==> r.priced_by is None
            }
        }),
{
    let e = events[c.1 as int];
    if e.preceding_message_id is Some {
        let id = e.preceding_message_id->Some_0@;
        if turns[t].message_id@ == id && (forall|k: int|
            t < k < turns.len() ==> (#[trigger] turns[k]).message_id@ != id) {
            lemma_last_message(turns, id, t);
        }
        if forall|k: int| 0 <= k < turns.len() ==> (#[trigger] turns[k]).message_id@ != id {
            lemma_no_message(turns, id);
        }
    }
}

proof fn lemma_targets(turns: Seq<TurnRecord>, calls: Seq<(int, int)>, f: Seq<char>)
    ensures
        compaction::targets(turns, calls).contains(f) <==> exists|k: int|
            0 <= k < calls.len() && targets_file(turns, #[trigger] calls[k], f),
    decreases calls.len(),
{
    if calls.len() > 0 {
        let d = calls.drop_last();
        lemma_targets(turns, d, f);
        let rest = compaction::targets(turns, d);
        let all = compaction::targets(turns, calls);
        let l = calls[calls.len() - 1];
        if all.contains(f) {
            let j = choose|j: int| 0 <= j < all.len() && all[j] == f;
            if j < rest.len() {
                assert(rest[j] == f);
                assert(rest.contains(f));
                let k = choose|k: int| 0 <= k < d.len() && targets_file(turns, #[trigger] d[k], f);
                assert(calls[k] == d[k]);
            } else {
                assert(targets_file(turns, l, f));
            }
        }
        if exists|k: int| 0 <= k < calls.len() && targets_file(turns, #[trigger] calls[k], f) {
            let k = choose|k: int|
                0 <= k < calls.len() && targets_file(turns, #[trigger] calls[k], f);
            if k < d.len() {
                assert(d[k] == calls[k]);
                assert(rest.contains(f));
                let j = choose|j: int| 0 <= j < rest.len() && rest[j] == f;
                assert(all[j] == f);
            } else {
                assert(all[all.len() - 1] == f);
            }
        }
    }
}

/// Whether the call has the file for its target.
pub open spec fn targets_file(turns: Seq<TurnRecord>, c: (int, int), f: Seq<char>) -> bool {
    call_of(turns, c).target matches Some(t) && t@ == f
}

/// The files of the work that was lost are those that it edited, and no others.
pub proof fn lemma_lost_files(
    w: crate::findings::CompactionLostWork,
    turns: Seq<TurnRecord>,
    calls: Seq<(int, int)>,
    f: Seq<char>,
)
    requires
        compaction::is_lost_work(w, turns, calls),
    ensures
        (exists|j: int| 0 <= j < w.files@.len() && (#[trigger] w.files@[j])@ == f)
            <==> exists|k: int|
            0 <= k < calls.len() && writes(turns, #[trigger] calls[k]) && targets_file(
                turns,
                calls[k],
                f,
            ),
        forall|a: int, b: int|
            #![trigger w.files@[a], w.files@[b]]
            0 <= a < b < w.files@.len() ==> text::str_lt(w.files@[a]@, w.files@[b]@),
{
    let edited = compaction::edit_calls(turns, calls);
    let names = compaction::targets(turns, edited);
    let firsts = groups::first_seen(names);
    let sorted = order::stable_sort(firsts, order::text_order());
    let q = |c: (int, int)| edits::is_edit_name(edits::call_at(turns, c).common_name@);
    groups::lemma_first_seen(names);
    order::lemma_sort_multiset(firsts, order::text_order());
    firsts.to_multiset_ensures();
    sorted.to_multiset_ensures();
    lemma_targets(turns, edited, f);
    let v = text::views(w.files@);
    assert(sorted.contains(f) <==> firsts.contains(f)) by {
        assert(sorted.to_multiset().count(f) == firsts.to_multiset().count(f));
    }
    if exists|j: int| 0 <= j < w.files@.len() && (#[trigger] w.files@[j])@ == f {
        let j = choose|j: int| 0 <= j < w.files@.len() && (#[trigger] w.files@[j])@ == f;
        assert(v[j] == f);
        assert(sorted.contains(f));
        let k = choose|k: int|
            0 <= k < edited.len() && targets_file(turns, #[trigger] edited[k], f);
        laws::streaks::lemma_pick_both(calls, q, edited[k]);
        assert(edited.contains(edited[k]));
        let l = choose|l: int| 0 <= l < calls.len() && calls[l] == edited[k];
        assert(writes(turns, calls[l]));
    }
    if exists|k: int|
        0 <= k < calls.len() && writes(turns, #[trigger] calls[k]) && targets_file(
            turns,
            calls[k],
            f,
        ) {
        let k = choose|k: int|
            0 <= k < calls.len() && writes(turns, #[trigger] calls[k]) && targets_file(
                turns,
                calls[k],
                f,
            );
        laws::streaks::lemma_pick_both(calls, q, calls[k]);
        assert(calls.contains(calls[k]));
        assert(edited.contains(calls[k]));
        let l = choose|l: int| 0 <= l < edited.len() && edited[l] == calls[k];
        assert(targets_file(turns, edited[l], f));
        assert(sorted.contains(f));
        let j = choose|j: int| 0 <= j < sorted.len() && sorted[j] == f;
        assert(v[j] == f);
        assert(w.files@[j]@ == f);
    }
    let lt = order::text_order();
    assert(order::strict_weak(lt)) by {
        assert forall|a: Seq<char>| !#[trigger] lt(a, a) by {
            text::lemma_str_lt(a, a, a);
        }
        assert forall|a: Seq<char>, b: Seq<char>, c: Seq<char>| #[trigger] lt(a, b)
            && #[trigger] lt(b, c) implies lt(a, c) by {
            text::lemma_str_lt(a, b, c);
        }
        assert forall|a: Seq<char>, b: Seq<char>, c: Seq<char>| #[trigger] lt(a, c) implies lt(a, b)
            || #[trigger] lt(b, c) by {
            text::lemma_str_lt(a, b, c);
            text::lemma_str_lt(b, a, c);
        }
    }
    order::lemma_sort_in_order(firsts, lt);
    firsts.lemma_multiset_has_no_duplicates();
    sorted.lemma_multiset_has_no_duplicates_conv();
    assert forall|a: int, b: int|
        #![trigger w.files@[a], w.files@[b]]
        0 <= a < b < w.files@.len() implies text::str_lt(w.files@[a]@, w.files@[b]@) by {
        assert(v[a] == sorted[a] && v[b] == sorted[b]);
        assert(!lt(sorted[b], sorted[a]));
        assert(sorted[a] != sorted[b]);
        text::lemma_str_lt(sorted[a], sorted[b], sorted[a]);
    }
}

} // verus!
