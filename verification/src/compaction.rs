//! What compactions drop from a session.

use crate::attempts;
use crate::edits;
use crate::findings::{CompactionLoss, CompactionLostWork};
use crate::groups;
use crate::hotspots;
use crate::hotspots::BySession;
use crate::order;
use crate::order::Ordered;
use crate::records::{CompactionEvent, ContentRecord, TurnRecord};
use crate::sessions;
use crate::skills;
use crate::streaks;
use crate::text;
use vstd::prelude::*;

verus! {

/// The session of each event.
pub open spec fn event_sessions(events: Seq<CompactionEvent>) -> Seq<Seq<char>> {
    events.map_values(|e: CompactionEvent| e.session_id@)
}

/// Whether event `a` has an earlier time than event `b`.
pub open spec fn sooner(events: Seq<CompactionEvent>) -> spec_fn(usize, usize) -> bool {
    |a: usize, b: usize| text::str_lt(events[a as int].ts@, events[b as int].ts@)
}

/// The events of one session in the order of their times, each with the one
/// that comes before it.
pub open spec fn boundaries(events: Seq<CompactionEvent>, members: Seq<usize>) -> Seq<
    (Option<usize>, usize),
> {
    let sorted = order::stable_sort(members, sooner(events));
    Seq::new(
        sorted.len(),
        |i: int|
            (
                if i == 0 {
                    None
                } else {
                    Some(sorted[i - 1])
                },
                sorted[i],
            ),
    )
}

/// The lists one after the other.
pub open spec fn chain<A>(lists: Seq<Seq<A>>) -> Seq<A>
    decreases lists.len(),
{
    if lists.len() == 0 {
        Seq::empty()
    } else {
        chain(lists.drop_last()) + lists.last()
    }
}

/// The compactions, sessions in first-seen order, each session in the order of
/// time.
pub open spec fn compactions_of(events: Seq<CompactionEvent>) -> Seq<(Option<usize>, usize)> {
    chain(
        groups::groups_of(event_sessions(events)).map_values(
            |g: (Seq<char>, Seq<usize>)| boundaries(events, g.1),
        ),
    )
}

/// The turns of a session in the order of their turn indices.
pub open spec fn turns_of_session(turns: Seq<TurnRecord>, id: Seq<char>) -> Seq<usize> {
    sessions::by_turn_index(turns, groups::positions(sessions::session_keys(turns), id))
}

/// Whether a time lies behind `start` and not behind `end`.
pub open spec fn in_window(ts: Seq<char>, start: Option<Seq<char>>, end: Seq<char>) -> bool {
    &&& match start {
        Some(s) => text::str_lt(s, ts),
        None => true,
    }
    &&& !text::str_lt(end, ts)
}

/// The calls of the session between two compactions.
pub open spec fn window_calls(
    turns: Seq<TurnRecord>,
    id: Seq<char>,
    start: Option<Seq<char>>,
    end: Seq<char>,
) -> Seq<(int, int)> {
    sessions::calls_of(
        turns,
        streaks::pick(
            turns_of_session(turns, id),
            |m: usize| in_window(turns[m as int].ts@, start, end),
        ),
    )
}

/// The calls of a shell.
pub open spec fn shell_calls(turns: Seq<TurnRecord>, calls: Seq<(int, int)>) -> Seq<(int, int)> {
    streaks::pick(calls, |c: (int, int)| edits::call_at(turns, c).common_name@ == "Bash"@)
}

/// The calls that edit a file.
pub open spec fn edit_calls(turns: Seq<TurnRecord>, calls: Seq<(int, int)>) -> Seq<(int, int)> {
    streaks::pick(
        calls,
        |c: (int, int)| edits::is_edit_name(edits::call_at(turns, c).common_name@),
    )
}

/// The calls that read a file.
pub open spec fn read_calls(turns: Seq<TurnRecord>, calls: Seq<(int, int)>) -> Seq<(int, int)> {
    streaks::pick(
        calls,
        |c: (int, int)| edits::is_read_name(edits::call_at(turns, c).common_name@),
    )
}

/// The targets that the calls name.
pub open spec fn targets(turns: Seq<TurnRecord>, calls: Seq<(int, int)>) -> Seq<Seq<char>>
    decreases calls.len(),
{
    if calls.len() == 0 {
        Seq::empty()
    } else {
        let rest = targets(turns, calls.drop_last());
        match edits::call_at(turns, calls.last()).target {
            Some(t) => rest.push(t@),
            None => rest,
        }
    }
}

/// Whether `w` says what the calls did: how often they ran a command, edited
/// and read, and the files they edited in order.
pub open spec fn is_lost_work(
    w: CompactionLostWork,
    turns: Seq<TurnRecord>,
    calls: Seq<(int, int)>,
) -> bool {
    &&& w.bash_count == shell_calls(turns, calls).len()
    &&& w.edit_count == edit_calls(turns, calls).len()
    &&& w.read_count == read_calls(turns, calls).len()
    &&& text::views(w.files@) == order::stable_sort(
        groups::first_seen(targets(turns, edit_calls(turns, calls))),
        order::text_order(),
    )
}

/// The last turn with this message id.
pub open spec fn last_with_message(turns: Seq<TurnRecord>, id: Seq<char>) -> Option<usize>
    decreases turns.len(),
{
    if turns.len() == 0 {
        None
    } else if turns.last().message_id@ == id {
        Some((turns.len() - 1) as usize)
    } else {
        last_with_message(turns.drop_last(), id)
    }
}

/// The turn whose model prices what event `e` dropped.
pub open spec fn pricing_turn(turns: Seq<TurnRecord>, e: CompactionEvent) -> Option<usize> {
    match (e.tokens_before_compact, e.preceding_message_id) {
        (Some(n), Some(id)) => if n > 0 {
            last_with_message(turns, id@)
        } else {
            None
        },
        _ => None,
    }
}

/// Whether the finding is the one for the compaction `c`.
pub open spec fn is_loss(
    r: CompactionLoss,
    events: Seq<CompactionEvent>,
    turns: Seq<TurnRecord>,
    content: Seq<BySession<ContentRecord>>,
    c: (Option<usize>, usize),
) -> bool {
    let e = events[c.1 as int];
    let start = match c.0 {
        Some(p) => Some(events[p as int].ts@),
        None => None,
    };
    &&& r.session_id@ == e.session_id@
    &&& r.ts@ == e.ts@
    &&& text::opt_view(r.preceding_message_id) == text::opt_view(e.preceding_message_id)
    &&& r.tokens_before_compact == (match e.tokens_before_compact {
        Some(n) => n,
        None => 0,
    })
    &&& r.priced_by == pricing_turn(turns, e)
    &&& match r.lost_work {
        Some(w) => hotspots::session_slot(content, e.session_id@) < content.len() && is_lost_work(
            w,
            turns,
            window_calls(turns, e.session_id@, start, e.ts@),
        ),
        None => hotspots::session_slot(content, e.session_id@) == content.len(),
    }
}

fn find_last_with_message(turns: &[TurnRecord], id: &str) -> (r: Option<usize>)
    ensures
        r == last_with_message(turns@, id@),
{
    let mut i: usize = turns.len();
    assert(turns@.take(i as int) =~= turns@);
    while i > 0
        invariant
            i <= turns@.len(),
            last_with_message(turns@, id@) == last_with_message(turns@.take(i as int), id@),
        decreases i,
    {
        assert(turns@.take(i as int).last() == turns@[i - 1]);
        assert(turns@.take(i as int).drop_last() =~= turns@.take(i - 1));
        if text::same(turns[i - 1].message_id.as_str(), id) {
            return Some(i - 1);
        }
        i = i - 1;
    }
    None
}

/// The turns of a session in the order of their turn indices.
pub fn find_session_turns(turns: &[TurnRecord], id: &str) -> (r: Vec<usize>)
    ensures
        r@ == turns_of_session(turns@, id@),
        attempts::inside(r@, turns@.len()),
{
    let ghost keys = sessions::session_keys(turns@);
    let mut found: Vec<usize> = Vec::new();
    let mut i: usize = 0;
    assert(keys.take(0) =~= Seq::<Seq<char>>::empty());
    while i < turns.len()
        invariant
            i <= turns@.len(),
            keys == sessions::session_keys(turns@),
            found@ == groups::positions(keys.take(i as int), id@),
            attempts::inside(found@, turns@.len()),
        decreases turns@.len() - i,
    {
        assert(keys.take(i + 1).drop_last() =~= keys.take(i as int));
        assert(keys.take(i + 1).last() == turns@[i as int].session_id@);
        if text::same(turns[i].session_id.as_str(), id) {
            found.push(i);
        }
        i = i + 1;
    }
    assert(keys.take(i as int) =~= keys);
    sessions::sort_by_turn_index(turns, &found)
}

fn check_window(ts: &str, start: Option<&str>, end: &str) -> (r: bool)
    ensures
        r == in_window(
            ts@,
            match start {
                Some(s) => Some(s@),
                None => None,
            },
            end@,
        ),
{
    let behind = match start {
        Some(s) => text::less(s, ts),
        None => true,
    };
    behind && !text::less(end, ts)
}

fn summarize_compacted_window(turns: &[TurnRecord], calls: &Vec<(usize, usize)>) -> (r:
    CompactionLostWork)
    requires
        skills::calls_inside(turns@, sessions::call_views(calls@)),
    ensures
        is_lost_work(r, turns@, sessions::call_views(calls@)),
{
    let ghost cv = sessions::call_views(calls@);
    let ghost sp = |c: (int, int)| edits::call_at(turns@, c).common_name@ == "Bash"@;
    let ghost ep = |c: (int, int)| edits::is_edit_name(edits::call_at(turns@, c).common_name@);
    let ghost rp = |c: (int, int)| edits::is_read_name(edits::call_at(turns@, c).common_name@);
    proof {
        reveal_strlit("Bash");
        reveal_strlit("Edit");
        reveal_strlit("Write");
        reveal_strlit("NotebookEdit");
        reveal_strlit("MultiEdit");
        reveal_strlit("Read");
        reveal_strlit("NotebookRead");
        assert("Bash"@[0] == 'B' && "Edit"@[0] == 'E' && "Write"@[0] == 'W' && "Read"@[0] == 'R');
        assert("MultiEdit"@[0] == 'M' && "NotebookEdit"@[8] == 'E' && "NotebookRead"@[8] == 'R');
        assert("NotebookEdit"@[0] == 'N' && "NotebookRead"@[0] == 'N');
        assert forall|n: Seq<char>|
            #![trigger edits::is_edit_name(n)]
            edits::is_edit_name(n) implies n != "Bash"@ && !edits::is_read_name(n) by {}
        assert forall|n: Seq<char>|
            #![trigger edits::is_read_name(n)]
            edits::is_read_name(n) implies n != "Bash"@ && !edits::is_edit_name(n) by {}
    }
    let mut bash_count: u64 = 0;
    let mut edit_count: u64 = 0;
    let mut read_count: u64 = 0;
    let mut files: Vec<String> = Vec::new();
    let mut i: usize = 0;
    assert(cv.take(0) =~= Seq::<(int, int)>::empty());
    assert(text::views(files@) =~= Seq::<Seq<char>>::empty());
    while i < calls.len()
        invariant
            i <= calls@.len(),
            cv == sessions::call_views(calls@),
            skills::calls_inside(turns@, cv),
            sp == (|c: (int, int)| edits::call_at(turns@, c).common_name@ == "Bash"@),
            ep == (|c: (int, int)| edits::is_edit_name(edits::call_at(turns@, c).common_name@)),
            rp == (|c: (int, int)| edits::is_read_name(edits::call_at(turns@, c).common_name@)),
            forall|n: Seq<char>|
                #![trigger edits::is_edit_name(n)]
                edits::is_edit_name(n) ==> n != "Bash"@ && !edits::is_read_name(n),
            forall|n: Seq<char>|
                #![trigger edits::is_read_name(n)]
                edits::is_read_name(n) ==> n != "Bash"@ && !edits::is_edit_name(n),
            bash_count == streaks::pick(cv.take(i as int), sp).len(),
            edit_count == streaks::pick(cv.take(i as int), ep).len(),
            read_count == streaks::pick(cv.take(i as int), rp).len(),
            bash_count <= i,
            edit_count <= i,
            read_count <= i,
            text::views(files@) == targets(turns@, streaks::pick(cv.take(i as int), ep)),
        decreases calls@.len() - i,
    {
        let (m, j) = calls[i];
        assert(cv[i as int] == (m as int, j as int));
        assert(cv.take(i + 1).drop_last() =~= cv.take(i as int));
        assert(cv.take(i + 1).last() == cv[i as int]);
        let call = &turns[m].tool_calls[j];
        assert(*call == edits::call_at(turns@, cv[i as int]));
        let name = call.common_name.as_str();
        let ghost before = streaks::pick(cv.take(i as int), ep);
        if text::same(name, "Bash") {
            bash_count = bash_count + 1;
        } else if edits::is_edit_tool(name) {
            edit_count = edit_count + 1;
            assert(streaks::pick(cv.take(i + 1), ep) == before.push(cv[i as int]));
            assert(before.push(cv[i as int]).drop_last() =~= before);
            match &call.target {
                Some(t) => {
                    let ghost listed = text::views(files@);
                    files.push(t.clone());
                    assert(text::views(files@) =~= listed.push(t@));
                },
                None => {},
            }
        } else if edits::is_read_tool(name) {
            read_count = read_count + 1;
        }
        i = i + 1;
    }
    assert(cv.take(i as int) =~= cv);
    let named = groups::distinct(&files);
    CompactionLostWork { files: order::sort_texts(named), bash_count, edit_count, read_count }
}

fn find_window_calls(turns: &[TurnRecord], id: &str, start: Option<&str>, end: &str) -> (r: Vec<
    (usize, usize),
>)
    ensures
        sessions::call_views(r@) == window_calls(
            turns@,
            id@,
            match start {
                Some(s) => Some(s@),
                None => None,
            },
            end@,
        ),
        skills::calls_inside(turns@, sessions::call_views(r@)),
{
    let ghost from = match start {
        Some(s) => Some(s@),
        None => None,
    };
    let members = find_session_turns(turns, id);
    let ghost p = |m: usize| in_window(turns@[m as int].ts@, from, end@);
    let mut found: Vec<usize> = Vec::new();
    let mut i: usize = 0;
    assert(members@.take(0) =~= Seq::<usize>::empty());
    while i < members.len()
        invariant
            i <= members@.len(),
            attempts::inside(members@, turns@.len()),
            attempts::inside(found@, turns@.len()),
            from == (match start {
                Some(s) => Some(s@),
                None => None,
            }),
            p == (|m: usize| in_window(turns@[m as int].ts@, from, end@)),
            found@ == streaks::pick(members@.take(i as int), p),
        decreases members@.len() - i,
    {
        assert(members@.take(i + 1).drop_last() =~= members@.take(i as int));
        assert(members@.take(i + 1).last() == members@[i as int]);
        if check_window(turns[members[i]].ts.as_str(), start, end) {
            found.push(members[i]);
        }
        i = i + 1;
    }
    assert(members@.take(i as int) =~= members@);
    let calls = sessions::flatten_tool_calls(turns, &found);
    proof {
        sessions::lemma_calls_inside(turns@, found@);
    }
    calls
}

struct TimeSlot {
    ts: String,
    at: usize,
}

impl Ordered for TimeSlot {
    closed spec fn before(self, other: Self) -> bool {
        text::str_lt(self.ts@, other.ts@)
    }

    fn is_before(&self, other: &Self) -> (r: bool) {
        text::less(self.ts.as_str(), other.ts.as_str())
    }
}

fn sort_by_time(events: &[CompactionEvent], members: &Vec<usize>) -> (r: Vec<usize>)
    requires
        attempts::inside(members@, events@.len()),
    ensures
        r@ == order::stable_sort(members@, sooner(events@)),
        attempts::inside(r@, events@.len()),
{
    let mut slots: Vec<TimeSlot> = Vec::new();
    let mut i: usize = 0;
    let ghost slot = |at: usize| TimeSlot { ts: events@[at as int].ts, at };
    while i < members.len()
        invariant
            i <= members@.len(),
            attempts::inside(members@, events@.len()),
            slots@.len() == i,
            forall|k: int|
                0 <= k < i ==> (#[trigger] slots@[k]).at == members@[k] && slots@[k].ts
                    == events@[members@[k] as int].ts,
        decreases members@.len() - i,
    {
        slots.push(TimeSlot { ts: events[members[i]].ts.clone(), at: members[i] });
        i = i + 1;
    }
    let ghost given = slots@;
    let sorted = order::sort(slots);
    let mut out: Vec<usize> = Vec::new();
    let mut j: usize = 0;
    while j < sorted.len()
        invariant
            j <= sorted@.len(),
            out@.len() == j,
            forall|k: int| 0 <= k < j ==> #[trigger] out@[k] == sorted@[k].at,
        decreases sorted@.len() - j,
    {
        out.push(sorted[j].at);
        j = j + 1;
    }
    proof {
        let target = order::stable_sort(members@, sooner(events@));
        assert(given =~= members@.map_values(slot));
        order::lemma_sort_map(members@, slot, sooner(events@), order::order_of::<TimeSlot>());
        assert(sorted@ == target.map_values(slot));
        assert(out@ =~= target);
        order::lemma_sort_inside(members@, sooner(events@));
        assert forall|i: int| 0 <= i < out@.len() implies (#[trigger] out@[i]) < events@.len() by {
            assert(members@.contains(out@[i]));
            let k = choose|k: int| 0 <= k < members@.len() && members@[k] == out@[i];
            assert(members@[k] < events@.len());
        }
    }
    out
}

fn find_loss(
    events: &[CompactionEvent],
    turns: &[TurnRecord],
    content: &[BySession<ContentRecord>],
    previous: Option<usize>,
    at: usize,
) -> (r: CompactionLoss)
    requires
        at < events@.len(),
        previous is Some ==> previous->Some_0 < events@.len(),
    ensures
        is_loss(r, events@, turns@, content@, (previous, at)),
{
    let e = &events[at];
    let tokens: u64 = match e.tokens_before_compact {
        Some(n) => n,
        None => 0,
    };
    let priced_by = match &e.preceding_message_id {
        Some(id) => if tokens > 0 {
            find_last_with_message(turns, id.as_str())
        } else {
            None
        },
        None => None,
    };
    let start = match previous {
        Some(p) => Some(events[p].ts.as_str()),
        None => None,
    };
    let lost_work = match hotspots::find_session(content, e.session_id.as_str()) {
        Some(_) => {
            let calls = find_window_calls(turns, e.session_id.as_str(), start, e.ts.as_str());
            Some(summarize_compacted_window(turns, &calls))
        },
        None => None,
    };
    CompactionLoss {
        session_id: e.session_id.clone(),
        ts: e.ts.clone(),
        preceding_message_id: text::clone_opt(&e.preceding_message_id),
        tokens_before_compact: tokens,
        priced_by,
        lost_work,
    }
}

/// Finds what each compaction dropped.
pub fn detect_compaction_losses(
    events: &[CompactionEvent],
    turns: &[TurnRecord],
    content: &[BySession<ContentRecord>],
) -> (r: Vec<CompactionLoss>)
    ensures
        r@.len() == compactions_of(events@).len(),
        forall|i: int|
            0 <= i < r@.len() ==> is_loss(
                #[trigger] r@[i],
                events@,
                turns@,
                content@,
                compactions_of(events@)[i],
            ),
{
    let ghost all = event_sessions(events@);
    let mut keys: Vec<String> = Vec::new();
    let mut i: usize = 0;
    while i < events.len()
        invariant
            i <= events@.len(),
            keys@.len() == i,
            forall|k: int| 0 <= k < i ==> (#[trigger] keys@[k])@ == events@[k].session_id@,
        decreases events@.len() - i,
    {
        keys.push(events[i].session_id.clone());
        i = i + 1;
    }
    assert(text::views(keys@) =~= all);
    let found = groups::group_by_key(&keys);
    let ghost gs = groups::groups_of(all);
    let ghost lists = gs.map_values(|g: (Seq<char>, Seq<usize>)| boundaries(events@, g.1));
    let n: usize = events.len();
    let mut out: Vec<CompactionLoss> = Vec::new();
    let mut g: usize = 0;
    assert(lists.take(0) =~= Seq::<Seq<(Option<usize>, usize)>>::empty());
    while g < found.len()
        invariant
            g <= found@.len(),
            n == events@.len(),
            all == event_sessions(events@),
            gs == groups::groups_of(all),
            gs == groups::group_views(found@),
            gs.len() == found@.len(),
            lists == gs.map_values(|g: (Seq<char>, Seq<usize>)| boundaries(events@, g.1)),
            out@.len() == chain(lists.take(g as int)).len(),
            forall|k: int|
                0 <= k < out@.len() ==> is_loss(
                    #[trigger] out@[k],
                    events@,
                    turns@,
                    content@,
                    chain(lists.take(g as int))[k],
                ),
        decreases found@.len() - g,
    {
        let ghost key = groups::first_seen(all)[g as int];
        let members = &found[g].members;
        assert(gs[g as int] == (found@[g as int].key@, members@));
        proof {
            groups::lemma_positions(all, key);
            assert(gs[g as int] == (key, groups::positions(all, key)));
            assert forall|k: int| 0 <= k < members@.len() implies (#[trigger] members@[k])
                < events@.len() by {
                assert(groups::positions(all, key)[k] < all.len());
            }
        }
        let sorted = sort_by_time(events, members);
        let ghost list = boundaries(events@, members@);
        let ghost start = out@;
        let mut j: usize = 0;
        while j < sorted.len()
            invariant
                j <= sorted@.len(),
                attempts::inside(sorted@, events@.len()),
                list == boundaries(events@, members@),
                sorted@ == order::stable_sort(members@, sooner(events@)),
                start.len() == chain(lists.take(g as int)).len(),
                forall|k: int|
                    0 <= k < start.len() ==> is_loss(
                        #[trigger] start[k],
                        events@,
                        turns@,
                        content@,
                        chain(lists.take(g as int))[k],
                    ),
                out@.len() == start.len() + j,
                forall|k: int| 0 <= k < start.len() ==> out@[k] == start[k],
                forall|k: int|
                    0 <= k < j ==> is_loss(
                        out@[start.len() + k],
                        events@,
                        turns@,
                        content@,
                        #[trigger] list[k],
                    ),
            decreases sorted@.len() - j,
        {
            let previous = if j == 0 {
                None
            } else {
                Some(sorted[j - 1])
            };
            let loss = find_loss(events, turns, content, previous, sorted[j]);
            assert(list[j as int] == (previous, sorted@[j as int]));
            out.push(loss);
            j = j + 1;
        }
        assert(lists.take(g + 1).drop_last() =~= lists.take(g as int));
        assert(lists.take(g + 1).last() == list);
        assert forall|k: int| 0 <= k < out@.len() implies is_loss(
            #[trigger] out@[k],
            events@,
            turns@,
            content@,
            chain(lists.take(g + 1))[k],
        ) by {
            if k >= start.len() {
                let q = k - start.len();
                assert(is_loss(
                    out@[start.len() + q],
                    events@,
                    turns@,
                    content@,
                    list[q],
                ));
            } else {
                assert(out@[k] == start[k]);
            }
        }
        g = g + 1;
    }
    assert(lists.take(g as int) =~= lists);
    out
}

} // verus!
