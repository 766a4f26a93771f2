//! Edits that are taken back, and sessions that edit far more than they read.

use crate::attempts;
use crate::findings::{EditHeavySession, EditPreview, EditRevertCycle, EditRevertSamplePreview};
use crate::records::{ContentKind, ContentRecord, InputField, SourceKind, ToolCall, TurnRecord};
use crate::sessions;
use crate::shell;
use crate::skills;
use crate::streaks;
use crate::text;
use vstd::prelude::*;

verus! {

/// Number of characters of a preview that are kept.
pub const SAMPLE_PREVIEW_MAX_CHARS: usize = 200;

/// How many edits there must be to a read, at the least, to be too many.
pub const EDIT_HEAVY_RATIO: u128 = 4;

/// Number of edits from which on a session can be edit-heavy.
pub const EDIT_HEAVY_MIN_EDITS: u64 = 5;

/// Whether the call is an edit of a file that took effect.
pub open spec fn is_file_edit(call: ToolCall) -> bool {
    &&& call.target is Some
    &&& call.name@ == "Edit"@ || call.name@ == "Write"@ || call.name@ == "NotebookEdit"@
    &&& call.is_error != Some(true)
}

fn check_file_edit(call: &ToolCall) -> (r: bool)
    ensures
        r == is_file_edit(*call),
{
    let name = call.name.as_str();
    let failed = match call.is_error {
        Some(b) => b,
        None => false,
    };
    call.target.is_some() && (text::same(name, "Edit") || text::same(name, "Write") || text::same(
        name,
        "NotebookEdit",
    )) && !failed
}

/// The call at `c`.
pub open spec fn call_at(turns: Seq<TurnRecord>, c: (int, int)) -> ToolCall {
    turns[c.0].tool_calls@[c.1]
}

/// Where a walk through the calls stands: the edits that can still be taken
/// back, and the pairs of an edit and the one that took it back, all as
/// positions in the list of calls.
#[verifier::ext_equal]
pub struct RevertState {
    pub live: Seq<int>,
    pub found: Seq<(int, int)>,
}

/// Whether the live edit `a` starts from where the edit `b` of the same file
/// ends.
pub open spec fn is_reverted_by(
    turns: Seq<TurnRecord>,
    calls: Seq<(int, int)>,
    a: int,
    b: int,
) -> bool {
    let x = call_at(turns, calls[a]);
    let y = call_at(turns, calls[b]);
    &&& text::opt_view(x.target) == text::opt_view(y.target)
    &&& y.edit_post_hash is Some
    &&& text::opt_view(x.edit_pre_hash) == text::opt_view(y.edit_post_hash)
}

/// The first of the live edits that edit `b` takes back.
pub open spec fn first_reverted(
    turns: Seq<TurnRecord>,
    calls: Seq<(int, int)>,
    live: Seq<int>,
    b: int,
) -> Option<int>
    decreases live.len(),
{
    if live.len() == 0 {
        None
    } else {
        let before = first_reverted(turns, calls, live.drop_last(), b);
        if before is Some {
            before
        } else if is_reverted_by(turns, calls, live.last(), b) {
            Some(live.last())
        } else {
            None
        }
    }
}

/// The walk through the first `n` calls. An edit that takes another back closes
/// the history of its file.
pub open spec fn revert_walk(turns: Seq<TurnRecord>, calls: Seq<(int, int)>, n: int) -> RevertState
    decreases n,
{
    if n <= 0 {
        RevertState { live: Seq::empty(), found: Seq::empty() }
    } else {
        let st = revert_walk(turns, calls, n - 1);
        let b = n - 1;
        if !is_file_edit(call_at(turns, calls[b])) {
            st
        } else {
            match first_reverted(turns, calls, st.live, b) {
                Some(a) => RevertState {
                    live: streaks::pick(
                        st.live,
                        |x: int|
                            text::opt_view(call_at(turns, calls[x]).target) != text::opt_view(
                                call_at(turns, calls[b]).target,
                            ),
                    ),
                    found: st.found.push((a, b)),
                },
                None => RevertState { live: st.live.push(b), found: st.found },
            }
        }
    }
}

/// The edits that are taken back, with the edits that do so.
pub open spec fn reverts_of(turns: Seq<TurnRecord>, calls: Seq<(int, int)>) -> Seq<(int, int)> {
    revert_walk(turns, calls, calls.len() as int).found
}

/// What the field `name` holds as text, empty where it holds none.
pub open spec fn field_text(input: Seq<InputField>, name: Seq<char>) -> Seq<char>
    decreases input.len(),
{
    if input.len() == 0 {
        Seq::empty()
    } else if input[0].name@ == name {
        match input[0].text {
            Some(t) => t@,
            None => Seq::empty(),
        }
    } else {
        field_text(input.drop_first(), name)
    }
}

/// The input of the first captured tool use `id`.
pub open spec fn first_use(content: Seq<ContentRecord>, id: Seq<char>) -> Option<Seq<InputField>>
    decreases content.len(),
{
    if content.len() == 0 {
        None
    } else {
        let before = first_use(content.drop_last(), id);
        let c = content.last();
        if before is Some {
            before
        } else {
            match c.tool_use {
                Some(u) => if c.kind == ContentKind::ToolUse && u.id@ == id {
                    Some(u.input@)
                } else {
                    None
                },
                None => None,
            }
        }
    }
}

/// What an edit put in place: the new text, or else the content written.
pub open spec fn new_text(input: Seq<InputField>) -> Seq<char> {
    if field_text(input, "new_string"@).len() > 0 {
        field_text(input, "new_string"@)
    } else {
        field_text(input, "content"@)
    }
}

/// The start of what an edit replaced and of what it put there.
pub open spec fn preview_of(input: Option<Seq<InputField>>) -> Option<(Seq<char>, Seq<char>)> {
    match input {
        Some(f) => {
            let old = field_text(f, "old_string"@);
            let new = new_text(f);
            if old.len() == 0 && new.len() == 0 {
                None
            } else {
                Some(
                    (
                        text::truncated(old, SAMPLE_PREVIEW_MAX_CHARS as nat),
                        text::truncated(new, SAMPLE_PREVIEW_MAX_CHARS as nat),
                    ),
                )
            }
        },
        None => None,
    }
}

fn find_field(input: &Vec<InputField>, name: &str) -> (r: String)
    ensures
        r@ == field_text(input@, name@),
{
    let ghost all = input@;
    let mut i: usize = 0;
    assert(all.skip(0) =~= all);
    while i < input.len()
        invariant
            i <= input@.len(),
            all == input@,
            field_text(all, name@) == field_text(all.skip(i as int), name@),
        decreases input@.len() - i,
    {
        assert(all.skip(i as int)[0] == input@[i as int]);
        if text::same(input[i].name.as_str(), name) {
            return match &input[i].text {
                Some(t) => t.clone(),
                None => String::new(),
            };
        }
        assert(all.skip(i as int).drop_first() =~= all.skip(i + 1));
        i = i + 1;
    }
    String::new()
}

proof fn lemma_first_use_stays(content: Seq<ContentRecord>, id: Seq<char>, n: int)
    requires
        0 <= n <= content.len(),
        first_use(content.take(n), id) is Some,
    ensures
        first_use(content, id) == first_use(content.take(n), id),
    decreases content.len() - n,
{
    if n < content.len() {
        assert(content.take(n + 1).drop_last() =~= content.take(n));
        lemma_first_use_stays(content, id, n + 1);
    } else {
        assert(content.take(n) =~= content);
    }
}

/// What a preview says.
pub open spec fn preview_view(p: EditPreview) -> (Seq<char>, Seq<char>) {
    (p.old@, p.new@)
}

fn extract_edit_preview(input: &Vec<InputField>) -> (r: Option<EditPreview>)
    ensures
        (match r {
            Some(p) => Some(preview_view(p)),
            None => None,
        }) == preview_of(Some(input@)),
{
    let old = find_field(input, "old_string");
    let direct = find_field(input, "new_string");
    let new = if direct.as_str().is_empty() {
        find_field(input, "content")
    } else {
        direct
    };
    if old.as_str().is_empty() && new.as_str().is_empty() {
        return None;
    }
    Some(
        EditPreview {
            old: text::truncate_chars(old.as_str(), SAMPLE_PREVIEW_MAX_CHARS),
            new: text::truncate_chars(new.as_str(), SAMPLE_PREVIEW_MAX_CHARS),
        },
    )
}

fn find_preview(content: &[ContentRecord], id: &str) -> (r: Option<EditPreview>)
    ensures
        (match r {
            Some(p) => Some(preview_view(p)),
            None => None,
        }) == preview_of(first_use(content@, id@)),
{
    let mut i: usize = 0;
    assert(content@.take(0) =~= Seq::<ContentRecord>::empty());
    while i < content.len()
        invariant
            i <= content@.len(),
            first_use(content@.take(i as int), id@) is None,
        decreases content@.len() - i,
    {
        assert(content@.take(i + 1).drop_last() =~= content@.take(i as int));
        let c = &content[i];
        match &c.tool_use {
            Some(u) => {
                if c.kind == ContentKind::ToolUse && text::same(u.id.as_str(), id) {
                    proof {
                        lemma_first_use_stays(content@, id@, i + 1);
                    }
                    return extract_edit_preview(&u.input);
                }
            },
            None => {},
        }
        i = i + 1;
    }
    assert(content@.take(i as int) =~= content@);
    None
}

/// Whether the cycle is the one in which edit `p.1` takes back edit `p.0`.
pub open spec fn is_cycle(
    r: EditRevertCycle,
    session: Seq<char>,
    turns: Seq<TurnRecord>,
    calls: Seq<(int, int)>,
    p: (int, int),
    content: Seq<ContentRecord>,
) -> bool {
    let first = calls[p.0];
    let second = calls[p.1];
    let before = preview_of(first_use(content, call_at(turns, first).id@));
    let after = preview_of(first_use(content, call_at(turns, second).id@));
    &&& r.session_id@ == session
    &&& Some(r.file_path@) == text::opt_view(call_at(turns, second).target)
    &&& r.first_edit_turn_index == turns[first.0].turn_index
    &&& r.revert_turn_index == turns[second.0].turn_index
    &&& r.span_turns == turns[second.0].turn_index - turns[first.0].turn_index
    &&& r.cost_turns@ == streaks::distinct_turns(
        turns,
        seq![first.0 as usize, second.0 as usize],
    )
    &&& match r.sample_preview {
        Some(s) => before == Some(preview_view(s.first_edit)) && after == Some(
            preview_view(s.revert),
        ),
        None => before is None || after is None,
    }
}

/// The turns at `members` stand in the order of their turn indices.
pub open spec fn in_turn_order(turns: Seq<TurnRecord>, members: Seq<usize>) -> bool {
    forall|i: int, j: int|
        #![trigger members[i], members[j]]
        0 <= i <= j < members.len() ==> turns[members[i] as int].turn_index
            <= turns[members[j] as int].turn_index
}

proof fn lemma_calls_in_order(turns: Seq<TurnRecord>, members: Seq<usize>)
    requires
        in_turn_order(turns, members),
        attempts::inside(members, turns.len()),
    ensures
        forall|i: int, j: int|
            0 <= i <= j < sessions::calls_of(turns, members).len() ==> turns[(
            #[trigger] sessions::calls_of(turns, members)[i]).0].turn_index <= turns[(
            #[trigger] sessions::calls_of(turns, members)[j]).0].turn_index,
        forall|i: int|
            0 <= i < sessions::calls_of(turns, members).len() ==> exists|k: int|
                0 <= k < members.len() && #[trigger] members[k] == (#[trigger] sessions::calls_of(
                    turns,
                    members,
                )[i]).0,
    decreases members.len(),
{
    if members.len() > 0 {
        let p = members.drop_last();
        assert forall|i: int, j: int|
            #![trigger p[i], p[j]]
            0 <= i <= j < p.len() implies turns[p[i] as int].turn_index
            <= turns[p[j] as int].turn_index by {
            assert(members[i] == p[i] && members[j] == p[j]);
        }
        assert(attempts::inside(p, turns.len())) by {
            assert forall|i: int| 0 <= i < p.len() implies (#[trigger] p[i]) < turns.len() by {
                assert(p[i] == members[i]);
            }
        }
        lemma_calls_in_order(turns, p);
        let before = sessions::calls_of(turns, p);
        let all = sessions::calls_of(turns, members);
        assert forall|i: int, j: int| 0 <= i <= j < all.len() implies turns[(
        #[trigger] all[i]).0].turn_index <= turns[(#[trigger] all[j]).0].turn_index by {
            if j < before.len() {
                assert(all[i] == before[i] && all[j] == before[j]);
            } else if i < before.len() {
                assert(all[i] == before[i]);
                let k = choose|k: int| 0 <= k < p.len() && #[trigger] p[k] == before[i].0;
                assert(members[k] == p[k]);
                assert(members[members.len() - 1] == all[j].0);
            }
        }
        assert forall|i: int| 0 <= i < all.len() implies exists|k: int|
            0 <= k < members.len() && #[trigger] members[k] == (#[trigger] all[i]).0 by {
            if i < before.len() {
                assert(all[i] == before[i]);
                let k = choose|k: int| 0 <= k < p.len() && #[trigger] p[k] == before[i].0;
                assert(members[k] == all[i].0);
            } else {
                assert(members[members.len() - 1] == all[i].0);
            }
        }
    }
}

fn same_opt(a: &Option<String>, b: &Option<String>) -> (r: bool)
    ensures
        r == (text::opt_view(*a) == text::opt_view(*b)),
{
    match (a, b) {
        (Some(x), Some(y)) => text::same(x.as_str(), y.as_str()),
        (None, None) => true,
        _ => false,
    }
}

/// The positions as integers.
pub open spec fn ints(v: Seq<usize>) -> Seq<int> {
    v.map_values(|x: usize| x as int)
}

fn find_first_reverted(
    turns: &[TurnRecord],
    calls: &Vec<(usize, usize)>,
    live: &Vec<usize>,
    b: usize,
) -> (r: Option<usize>)
    requires
        skills::calls_inside(turns@, sessions::call_views(calls@)),
        attempts::inside(live@, calls@.len()),
        b < calls@.len(),
    ensures
        (match r {
            Some(a) => Some(a as int),
            None => None,
        }) == first_reverted(turns@, sessions::call_views(calls@), ints(live@), b as int),
        r is Some ==> live@.contains(r->Some_0),
{
    let ghost cv = sessions::call_views(calls@);
    let ghost lv = ints(live@);
    assert(cv[b as int] == (calls@[b as int].0 as int, calls@[b as int].1 as int));
    let y = &turns[calls[b].0].tool_calls[calls[b].1];
    let mut i: usize = 0;
    assert(lv.take(0) =~= Seq::<int>::empty());
    while i < live.len()
        invariant
            i <= live@.len(),
            cv == sessions::call_views(calls@),
            skills::calls_inside(turns@, cv),
            attempts::inside(live@, calls@.len()),
            b < calls@.len(),
            *y == call_at(turns@, cv[b as int]),
            lv == ints(live@),
            first_reverted(turns@, cv, lv.take(i as int), b as int) is None,
        decreases live@.len() - i,
    {
        assert(lv.take(i + 1).drop_last() =~= lv.take(i as int));
        let a: usize = live[i];
        assert(cv[a as int] == (calls@[a as int].0 as int, calls@[a as int].1 as int));
        let x = &turns[calls[a].0].tool_calls[calls[a].1];
        if same_opt(&x.target, &y.target) && y.edit_post_hash.is_some() && same_opt(
            &x.edit_pre_hash,
            &y.edit_post_hash,
        ) {
            proof {
                lemma_first_reverted_stays(turns@, cv, lv, b as int, i + 1);
            }
            return Some(a);
        }
        i = i + 1;
    }
    assert(lv.take(i as int) =~= lv);
    None
}

proof fn lemma_first_reverted_stays(
    turns: Seq<TurnRecord>,
    calls: Seq<(int, int)>,
    live: Seq<int>,
    b: int,
    n: int,
)
    requires
        0 <= n <= live.len(),
        first_reverted(turns, calls, live.take(n), b) is Some,
    ensures
        first_reverted(turns, calls, live, b) == first_reverted(turns, calls, live.take(n), b),
    decreases live.len() - n,
{
    if n < live.len() {
        assert(live.take(n + 1).drop_last() =~= live.take(n));
        lemma_first_reverted_stays(turns, calls, live, b, n + 1);
    } else {
        assert(live.take(n) =~= live);
    }
}

fn drop_file(
    turns: &[TurnRecord],
    calls: &Vec<(usize, usize)>,
    live: &Vec<usize>,
    b: usize,
) -> (r: Vec<usize>)
    requires
        skills::calls_inside(turns@, sessions::call_views(calls@)),
        attempts::inside(live@, b as nat),
        b < calls@.len(),
    ensures
        ints(r@) == streaks::pick(
            ints(live@),
            |x: int|
                text::opt_view(call_at(turns@, sessions::call_views(calls@)[x]).target)
                    != text::opt_view(
                    call_at(turns@, sessions::call_views(calls@)[b as int]).target,
                ),
        ),
        attempts::inside(r@, b as nat),
{
    let ghost cv = sessions::call_views(calls@);
    let ghost lv = ints(live@);
    let ghost p = |x: int|
        text::opt_view(call_at(turns@, cv[x]).target) != text::opt_view(
            call_at(turns@, cv[b as int]).target,
        );
    assert(cv[b as int] == (calls@[b as int].0 as int, calls@[b as int].1 as int));
    let y = &turns[calls[b].0].tool_calls[calls[b].1];
    let mut out: Vec<usize> = Vec::new();
    let mut i: usize = 0;
    assert(lv.take(0) =~= Seq::<int>::empty());
    assert(ints(out@) =~= Seq::<int>::empty());
    while i < live.len()
        invariant
            i <= live@.len(),
            cv == sessions::call_views(calls@),
            skills::calls_inside(turns@, cv),
            attempts::inside(live@, b as nat),
            b < calls@.len(),
            *y == call_at(turns@, cv[b as int]),
            lv == ints(live@),
            p == (|x: int|
                text::opt_view(call_at(turns@, cv[x]).target) != text::opt_view(
                    call_at(turns@, cv[b as int]).target,
                )),
            ints(out@) == streaks::pick(lv.take(i as int), p),
            attempts::inside(out@, b as nat),
        decreases live@.len() - i,
    {
        assert(lv.take(i + 1).drop_last() =~= lv.take(i as int));
        let a: usize = live[i];
        assert(lv.take(i + 1).last() == a);
        assert(cv[a as int] == (calls@[a as int].0 as int, calls@[a as int].1 as int));
        let x = &turns[calls[a].0].tool_calls[calls[a].1];
        if !same_opt(&x.target, &y.target) {
            let ghost before = ints(out@);
            out.push(a);
            assert(ints(out@) =~= before.push(a as int));
        }
        i = i + 1;
    }
    assert(lv.take(i as int) =~= lv);
    out
}

/// Finds the edits that put a file back to where it had been.
pub fn detect_edit_reverts(
    session_id: &str,
    turns: &[TurnRecord],
    members: &Vec<usize>,
    content: &[ContentRecord],
) -> (r: Vec<EditRevertCycle>)
    requires
        attempts::inside(members@, turns@.len()),
        in_turn_order(turns@, members@),
    ensures
        r@.len() == reverts_of(turns@, sessions::calls_of(turns@, members@)).len(),
        forall|i: int|
            0 <= i < r@.len() ==> is_cycle(
                #[trigger] r@[i],
                session_id@,
                turns@,
                sessions::calls_of(turns@, members@),
                reverts_of(turns@, sessions::calls_of(turns@, members@))[i],
                content@,
            ),
{
    let calls = sessions::flatten_tool_calls(turns, members);
    let ghost cv = sessions::calls_of(turns@, members@);
    proof {
        sessions::lemma_calls_inside(turns@, members@);
        lemma_calls_in_order(turns@, members@);
    }
    let mut live: Vec<usize> = Vec::new();
    let mut out: Vec<EditRevertCycle> = Vec::new();
    let mut i: usize = 0;
    assert(ints(live@) =~= Seq::<int>::empty());
    while i < calls.len()
        invariant
            i <= calls@.len(),
            cv == sessions::call_views(calls@),
            skills::calls_inside(turns@, cv),
            forall|i: int, j: int|
                0 <= i <= j < cv.len() ==> turns@[(#[trigger] cv[i]).0].turn_index <= turns@[(
                #[trigger] cv[j]).0].turn_index,
            ints(live@) == revert_walk(turns@, cv, i as int).live,
            attempts::inside(live@, i as nat),
            out@.len() == revert_walk(turns@, cv, i as int).found.len(),
            forall|k: int|
                0 <= k < out@.len() ==> is_cycle(
                    #[trigger] out@[k],
                    session_id@,
                    turns@,
                    cv,
                    revert_walk(turns@, cv, i as int).found[k],
                    content@,
                ),
        decreases calls@.len() - i,
    {
        let (m, j) = calls[i];
        assert(cv[i as int] == (m as int, j as int));
        let ghost st = revert_walk(turns@, cv, i as int);
        let ghost next = revert_walk(turns@, cv, i + 1);
        let call = &turns[m].tool_calls[j];
        assert(*call == call_at(turns@, cv[i as int]));
        if check_file_edit(call) {
            match find_first_reverted(turns, &calls, &live, i) {
                Some(a) => {
                    assert(a < i) by {
                        let k = choose|k: int| 0 <= k < live@.len() && live@[k] == a;
                        assert(live@[k] < i);
                    }
                    let (fm, fj) = calls[a];
                    assert(cv[a as int] == (fm as int, fj as int));
                    let first = &turns[fm].tool_calls[fj];
                    let mut at: Vec<usize> = Vec::new();
                    at.push(fm);
                    at.push(m);
                    assert(at@ =~= seq![fm, m]);
                    let before = find_preview(content, first.id.as_str());
                    let after = find_preview(content, call.id.as_str());
                    let sample_preview = match (before, after) {
                        (Some(first_edit), Some(revert)) => Some(
                            EditRevertSamplePreview { first_edit, revert },
                        ),
                        _ => None,
                    };
                    let file_path = match &call.target {
                        Some(t) => t.clone(),
                        None => String::new(),
                    };
                    assert(turns@[cv[a as int].0].turn_index <= turns@[cv[i as int].0].turn_index);
                    let cycle = EditRevertCycle {
                        session_id: session_id.to_owned(),
                        file_path,
                        first_edit_turn_index: turns[fm].turn_index,
                        revert_turn_index: turns[m].turn_index,
                        span_turns: turns[m].turn_index - turns[fm].turn_index,
                        cost_turns: streaks::dedup_turns(turns, &at),
                        sample_preview,
                    };
                    assert(next.found == st.found.push((a as int, i as int)));
                    assert(is_cycle(
                        cycle,
                        session_id@,
                        turns@,
                        cv,
                        (a as int, i as int),
                        content@,
                    ));
                    out.push(cycle);
                    live = drop_file(turns, &calls, &live, i);
                    assert(ints(live@) == next.live);
                },
                None => {
                    let ghost before = ints(live@);
                    live.push(i);
                    assert(ints(live@) =~= before.push(i as int));
                },
            }
        }
        i = i + 1;
    }
    out
}

/// An edit that takes another back comes after it, edits the same file, and
/// ends where the other started.
pub proof fn lemma_reverts(turns: Seq<TurnRecord>, calls: Seq<(int, int)>, n: int)
    requires
        0 <= n <= calls.len(),
    ensures
        forall|i: int|
            0 <= i < revert_walk(turns, calls, n).found.len() ==> 0 <= (#[trigger] revert_walk(
                turns,
                calls,
                n,
            ).found[i]).0 < revert_walk(turns, calls, n).found[i].1 < n && is_reverted_by(
                turns,
                calls,
                revert_walk(turns, calls, n).found[i].0,
                revert_walk(turns, calls, n).found[i].1,
            ),
        forall|i: int|
            0 <= i < revert_walk(turns, calls, n).live.len() ==> 0 <= #[trigger] revert_walk(
                turns,
                calls,
                n,
            ).live[i] < n,
    decreases n,
{
    if n > 0 {
        lemma_reverts(turns, calls, n - 1);
        let st = revert_walk(turns, calls, n - 1);
        let b = n - 1;
        if is_file_edit(call_at(turns, calls[b])) {
            lemma_first_reverted(turns, calls, st.live, b);
            let p = |x: int|
                text::opt_view(call_at(turns, calls[x]).target) != text::opt_view(
                    call_at(turns, calls[b]).target,
                );
            lemma_pick_from(st.live, p);
            let next = revert_walk(turns, calls, n);
            assert forall|i: int| 0 <= i < next.live.len() implies 0 <= #[trigger] next.live[i]
                < n by {
                if first_reverted(turns, calls, st.live, b) is Some {
                    assert(st.live.contains(next.live[i]));
                    let k = choose|k: int| 0 <= k < st.live.len() && st.live[k] == next.live[i];
                    assert(0 <= st.live[k] < n - 1);
                } else if i < st.live.len() {
                    assert(next.live[i] == st.live[i]);
                }
            }
        }
    }
}

proof fn lemma_first_reverted(
    turns: Seq<TurnRecord>,
    calls: Seq<(int, int)>,
    live: Seq<int>,
    b: int,
)
    ensures
        first_reverted(turns, calls, live, b) matches Some(a) ==> is_reverted_by(
            turns,
            calls,
            a,
            b,
        ) && exists|k: int| 0 <= k < live.len() && #[trigger] live[k] == a,
    decreases live.len(),
{
    if live.len() > 0 {
        lemma_first_reverted(turns, calls, live.drop_last(), b);
        match first_reverted(turns, calls, live.drop_last(), b) {
            Some(a) => {
                let d = live.drop_last();
                let k = choose|k: int| 0 <= k < d.len() && #[trigger] d[k] == a;
                assert(live[k] == a);
            },
            None => {
                assert(live[live.len() - 1] == live.last());
            },
        }
    }
}

proof fn lemma_pick_from<T>(s: Seq<T>, p: spec_fn(T) -> bool)
    ensures
        forall|i: int|
            0 <= i < streaks::pick(s, p).len() ==> s.contains(#[trigger] streaks::pick(s, p)[i]),
    decreases s.len(),
{
    if s.len() > 0 {
        let d = s.drop_last();
        lemma_pick_from(d, p);
        assert forall|i: int| 0 <= i < streaks::pick(s, p).len() implies s.contains(
            #[trigger] streaks::pick(s, p)[i],
        ) by {
            if i < streaks::pick(d, p).len() {
                assert(d.contains(streaks::pick(d, p)[i]));
                let k = choose|k: int| 0 <= k < d.len() && d[k] == streaks::pick(d, p)[i];
                assert(s[k] == d[k]);
            } else {
                assert(s[s.len() - 1] == s.last());
            }
        }
    }
}

/// The tools that read a file.
pub open spec fn is_read_name(name: Seq<char>) -> bool {
    name == "Read"@ || name == "NotebookRead"@
}

/// The tools that edit a file.
pub open spec fn is_edit_name(name: Seq<char>) -> bool {
    name == "Edit"@ || name == "Write"@ || name == "NotebookEdit"@ || name == "MultiEdit"@
}

/// Whether the name is that of a tool that reads a file.
pub fn is_read_tool(name: &str) -> (r: bool)
    ensures
        r == is_read_name(name@),
{
    text::same(name, "Read") || text::same(name, "NotebookRead")
}

/// Whether the name is that of a tool that edits a file.
pub fn is_edit_tool(name: &str) -> (r: bool)
    ensures
        r == is_edit_name(name@),
{
    text::same(name, "Edit") || text::same(name, "Write") || text::same(name, "NotebookEdit")
        || text::same(name, "MultiEdit")
}

/// Whether the call is a Codex shell command that reads a file.
pub open spec fn is_shell_read(call: ToolCall) -> bool {
    (call.name@ == "exec_command"@ || call.name@ == "shell"@) && (match call.target {
        Some(t) => shell::command_reads_file(t@),
        None => false,
    })
}

/// Whether the call counts as a read.
pub open spec fn counts_as_read(call: ToolCall, source: SourceKind) -> bool {
    is_read_name(call.common_name@) || (source == SourceKind::Codex && is_shell_read(call))
}

/// Whether the call counts as an edit.
pub open spec fn counts_as_edit(call: ToolCall, source: SourceKind) -> bool {
    !counts_as_read(call, source) && is_edit_name(call.common_name@)
}

fn is_codex_shell_file_read(call: &ToolCall) -> (r: bool)
    ensures
        r == is_shell_read(*call),
{
    let name = call.name.as_str();
    if !(text::same(name, "exec_command") || text::same(name, "shell")) {
        return false;
    }
    match &call.target {
        Some(t) => shell::shell_command_has_file_read(t.as_str()),
        None => false,
    }
}

fn is_read_for_edit_heavy(call: &ToolCall, source: SourceKind) -> (r: bool)
    ensures
        r == counts_as_read(*call, source),
{
    is_read_tool(call.common_name.as_str()) || (source == SourceKind::Codex
        && is_codex_shell_file_read(call))
}

/// The calls that count as reads.
pub open spec fn reads_of(turns: Seq<TurnRecord>, calls: Seq<(int, int)>) -> Seq<(int, int)> {
    streaks::pick(
        calls,
        |c: (int, int)| counts_as_read(call_at(turns, c), turns[c.0].source),
    )
}

/// The calls that count as edits.
pub open spec fn edits_of(turns: Seq<TurnRecord>, calls: Seq<(int, int)>) -> Seq<(int, int)> {
    streaks::pick(
        calls,
        |c: (int, int)| counts_as_edit(call_at(turns, c), turns[c.0].source),
    )
}

/// The turns at `members` with a call that counts as an edit.
pub open spec fn edit_turns(turns: Seq<TurnRecord>, members: Seq<usize>) -> Seq<usize> {
    streaks::pick(
        members,
        |m: usize|
            exists|j: int|
                0 <= j < turns[m as int].tool_calls@.len() && counts_as_edit(
                    #[trigger] turns[m as int].tool_calls@[j],
                    turns[m as int].source,
                ),
    )
}

/// The retries of the turns at `members`.
pub open spec fn retries_of(turns: Seq<TurnRecord>, members: Seq<usize>) -> nat
    decreases members.len(),
{
    if members.len() == 0 {
        0
    } else {
        retries_of(turns, members.drop_last()) + turns[members.last() as int].edit_retries as nat
    }
}

/// Whether the session edits far more than it reads: at least five edits, and
/// more than four to a read.
pub open spec fn is_edit_heavy(turns: Seq<TurnRecord>, members: Seq<usize>) -> bool {
    let calls = sessions::calls_of(turns, members);
    edits_of(turns, calls).len() >= EDIT_HEAVY_MIN_EDITS && edits_of(turns, calls).len()
        > EDIT_HEAVY_RATIO * reads_of(turns, calls).len()
}

fn find_edit_turns(turns: &[TurnRecord], members: &Vec<usize>) -> (r: Vec<usize>)
    requires
        attempts::inside(members@, turns@.len()),
    ensures
        r@ == edit_turns(turns@, members@),
        attempts::inside(r@, turns@.len()),
{
    let ghost p = |m: usize|
        exists|j: int|
            0 <= j < turns@[m as int].tool_calls@.len() && counts_as_edit(
                #[trigger] turns@[m as int].tool_calls@[j],
                turns@[m as int].source,
            );
    let mut out: Vec<usize> = Vec::new();
    let mut i: usize = 0;
    assert(members@.take(0) =~= Seq::<usize>::empty());
    while i < members.len()
        invariant
            i <= members@.len(),
            attempts::inside(members@, turns@.len()),
            attempts::inside(out@, turns@.len()),
            p == (|m: usize|
                exists|j: int|
                    0 <= j < turns@[m as int].tool_calls@.len() && counts_as_edit(
                        #[trigger] turns@[m as int].tool_calls@[j],
                        turns@[m as int].source,
                    )),
            out@ == streaks::pick(members@.take(i as int), p),
        decreases members@.len() - i,
    {
        assert(members@.take(i + 1).drop_last() =~= members@.take(i as int));
        assert(members@.take(i + 1).last() == members@[i as int]);
        let m: usize = members[i];
        let t = &turns[m];
        let mut edits = false;
        let mut j: usize = 0;
        while j < t.tool_calls.len() && !edits
            invariant
                j <= t.tool_calls@.len(),
                edits == exists|k: int|
                    0 <= k < j && counts_as_edit(#[trigger] t.tool_calls@[k], t.source),
            decreases t.tool_calls@.len() - j,
        {
            let call = &t.tool_calls[j];
            edits = !is_read_for_edit_heavy(call, t.source) && is_edit_tool(
                call.common_name.as_str(),
            );
            j = j + 1;
        }
        assert(edits == p(m));
        if edits {
            out.push(m);
        }
        i = i + 1;
    }
    assert(members@.take(i as int) =~= members@);
    out
}

fn sum_retries(turns: &[TurnRecord], members: &Vec<usize>) -> (r: u128)
    requires
        attempts::inside(members@, turns@.len()),
    ensures
        r == retries_of(turns@, members@),
{
    let mut sum: u128 = 0;
    let mut i: usize = 0;
    assert(members@.take(0) =~= Seq::<usize>::empty());
    while i < members.len()
        invariant
            i <= members@.len(),
            attempts::inside(members@, turns@.len()),
            sum == retries_of(turns@, members@.take(i as int)),
            sum <= i * u64::MAX,
        decreases members@.len() - i,
    {
        assert(members@.take(i + 1).drop_last() =~= members@.take(i as int));
        assert(members@.take(i + 1).last() == members@[i as int]);
        assert((i + 1) * u64::MAX == i * u64::MAX + u64::MAX) by (nonlinear_arith);
        assert((i + 1) * u64::MAX <= u128::MAX) by (nonlinear_arith)
            requires
                i + 1 <= usize::MAX,
        ;
        sum = sum + turns[members[i]].edit_retries as u128;
        i = i + 1;
    }
    assert(members@.take(i as int) =~= members@);
    sum
}

proof fn lemma_pick_len<T>(s: Seq<T>, p: spec_fn(T) -> bool)
    ensures
        streaks::pick(s, p).len() <= s.len(),
    decreases s.len(),
{
    if s.len() > 0 {
        lemma_pick_len(s.drop_last(), p);
    }
}

/// Whether the finding is the one for the session at `members`.
pub open spec fn is_heavy(
    e: EditHeavySession,
    session: Seq<char>,
    turns: Seq<TurnRecord>,
    members: Seq<usize>,
) -> bool {
    let calls = sessions::calls_of(turns, members);
    &&& members.len() > 0
    &&& e.source == turns[members[0] as int].source
    &&& e.session_id@ == session
    &&& e.read_count == reads_of(turns, calls).len()
    &&& e.edit_count == edits_of(turns, calls).len()
    &&& e.likely_retries == retries_of(turns, members)
    &&& e.cost_turns@ == streaks::distinct_turns(turns, edit_turns(turns, members))
}

/// Finds out whether the session edits far more than it reads.
pub fn detect_edit_heavy(session_id: &str, turns: &[TurnRecord], members: &Vec<usize>) -> (r:
    Option<EditHeavySession>)
    requires
        attempts::inside(members@, turns@.len()),
    ensures
        match r {
            Some(e) => is_edit_heavy(turns@, members@) && is_heavy(
                e,
                session_id@,
                turns@,
                members@,
            ),
            None => !is_edit_heavy(turns@, members@),
        },
{
    let calls = sessions::flatten_tool_calls(turns, members);
    let ghost cv = sessions::calls_of(turns@, members@);
    let ghost rp = |c: (int, int)| counts_as_read(call_at(turns@, c), turns@[c.0].source);
    let ghost ep = |c: (int, int)| counts_as_edit(call_at(turns@, c), turns@[c.0].source);
    proof {
        sessions::lemma_calls_inside(turns@, members@);
    }
    let mut read_count: u64 = 0;
    let mut edit_count: u64 = 0;
    let mut i: usize = 0;
    assert(cv.take(0) =~= Seq::<(int, int)>::empty());
    while i < calls.len()
        invariant
            i <= calls@.len(),
            cv == sessions::call_views(calls@),
            skills::calls_inside(turns@, cv),
            rp == (|c: (int, int)| counts_as_read(call_at(turns@, c), turns@[c.0].source)),
            ep == (|c: (int, int)| counts_as_edit(call_at(turns@, c), turns@[c.0].source)),
            read_count == streaks::pick(cv.take(i as int), rp).len(),
            edit_count == streaks::pick(cv.take(i as int), ep).len(),
            read_count <= i,
            edit_count <= i,
        decreases calls@.len() - i,
    {
        let (m, j) = calls[i];
        assert(cv[i as int] == (m as int, j as int));
        assert(cv.take(i + 1).drop_last() =~= cv.take(i as int));
        assert(cv.take(i + 1).last() == cv[i as int]);
        let t = &turns[m];
        let call = &t.tool_calls[j];
        if is_read_for_edit_heavy(call, t.source) {
            read_count = read_count + 1;
        } else if is_edit_tool(call.common_name.as_str()) {
            edit_count = edit_count + 1;
        }
        i = i + 1;
    }
    assert(cv.take(i as int) =~= cv);
    if edit_count < EDIT_HEAVY_MIN_EDITS || edit_count as u128 <= EDIT_HEAVY_RATIO * (
    read_count as u128) {
        return None;
    }
    assert(members@.len() > 0) by {
        if members@.len() == 0 {
            assert(cv =~= Seq::<(int, int)>::empty());
            assert(edits_of(turns@, cv).len() == 0);
        }
    }
    let edited = find_edit_turns(turns, members);
    Some(
        EditHeavySession {
            source: turns[members[0]].source,
            session_id: session_id.to_owned(),
            read_count,
            edit_count,
            likely_retries: sum_retries(turns, members),
            cost_turns: streaks::dedup_turns(turns, &edited),
        },
    )
}

} // verus!
