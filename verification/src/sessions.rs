//! Turns grouped by session.

use crate::groups;
use crate::groups::Group;
use crate::order;
use crate::order::Ordered;
use crate::records::TurnRecord;
use crate::text;
use vstd::prelude::*;

verus! {

/// The session of each turn.
pub open spec fn session_keys(turns: Seq<TurnRecord>) -> Seq<Seq<char>> {
    turns.map_values(|t: TurnRecord| t.session_id@)
}

/// Whether turn `a` has a smaller turn index than turn `b`.
pub open spec fn earlier(turns: Seq<TurnRecord>) -> spec_fn(usize, usize) -> bool {
    |a: usize, b: usize| turns[a as int].turn_index < turns[b as int].turn_index
}

/// The positions in the order of their turn indices, ties as they stand.
pub open spec fn by_turn_index(turns: Seq<TurnRecord>, members: Seq<usize>) -> Seq<usize> {
    order::stable_sort(members, earlier(turns))
}

/// The sessions in first-seen order, each with the positions of its turns in
/// the order of their turn indices.
pub open spec fn sessions_of(turns: Seq<TurnRecord>) -> Seq<(Seq<char>, Seq<usize>)> {
    groups::groups_of(session_keys(turns)).map_values(
        |g: (Seq<char>, Seq<usize>)| (g.0, by_turn_index(turns, g.1)),
    )
}

/// The calls of the turns at `members` in order: the position of the turn and
/// the position of the call in it.
pub open spec fn calls_of(turns: Seq<TurnRecord>, members: Seq<usize>) -> Seq<(int, int)>
    decreases members.len(),
{
    if members.len() == 0 {
        Seq::empty()
    } else {
        let m = members.last() as int;
        calls_of(turns, members.drop_last()) + Seq::new(
            turns[m].tool_calls@.len(),
            |j: int| (m, j),
        )
    }
}

/// Every call names a turn that is there, and a call of that turn.
pub proof fn lemma_calls_inside(turns: Seq<TurnRecord>, members: Seq<usize>)
    requires
        forall|i: int| 0 <= i < members.len() ==> (#[trigger] members[i]) < turns.len(),
    ensures
        forall|i: int|
            0 <= i < calls_of(turns, members).len() ==> 0 <= (#[trigger] calls_of(
                turns,
                members,
            )[i]).0 < turns.len() && 0 <= calls_of(turns, members)[i].1 < turns[calls_of(
                turns,
                members,
            )[i].0].tool_calls@.len(),
        forall|i: int|
            0 <= i < calls_of(turns, members).len() ==> members.contains(
                (#[trigger] calls_of(turns, members)[i]).0 as usize,
            ),
    decreases members.len(),
{
    if members.len() > 0 {
        let p = members.drop_last();
        assert forall|i: int| 0 <= i < p.len() implies (#[trigger] p[i]) < turns.len() by {
            assert(p[i] == members[i]);
        }
        lemma_calls_inside(turns, p);
        let before = calls_of(turns, p);
        let all = calls_of(turns, members);
        assert(members[members.len() - 1] < turns.len());
        assert forall|i: int| 0 <= i < all.len() implies 0 <= (#[trigger] all[i]).0 < turns.len()
            && 0 <= all[i].1 < turns[all[i].0].tool_calls@.len() && members.contains(
            all[i].0 as usize,
        ) by {
            if i < before.len() {
                assert(all[i] == before[i]);
                let k = choose|k: int| 0 <= k < p.len() && p[k] == all[i].0 as usize;
                assert(members[k] == all[i].0 as usize);
            } else {
                assert(members[members.len() - 1] == all[i].0 as usize);
            }
        }
    }
}

/// The calls of the turns at `members` in order.
pub fn flatten_tool_calls(turns: &[TurnRecord], members: &Vec<usize>) -> (r: Vec<(usize, usize)>)
    requires
        forall|i: int| 0 <= i < members@.len() ==> (#[trigger] members@[i]) < turns@.len(),
    ensures
        call_views(r@) == calls_of(turns@, members@),
{
    let mut out: Vec<(usize, usize)> = Vec::new();
    let mut i: usize = 0;
    assert(members@.take(0) =~= Seq::<usize>::empty());
    assert(call_views(out@) =~= Seq::<(int, int)>::empty());
    while i < members.len()
        invariant
            i <= members@.len(),
            forall|i: int| 0 <= i < members@.len() ==> (#[trigger] members@[i]) < turns@.len(),
            call_views(out@) == calls_of(turns@, members@.take(i as int)),
        decreases members@.len() - i,
    {
        let m: usize = members[i];
        let t = &turns[m];
        let ghost start = call_views(out@);
        let mut j: usize = 0;
        while j < t.tool_calls.len()
            invariant
                j <= t.tool_calls@.len(),
                call_views(out@) == start + Seq::new(j as nat, |j: int| (m as int, j)),
            decreases t.tool_calls@.len() - j,
        {
            let ghost before = call_views(out@);
            out.push((m, j));
            assert(call_views(out@) =~= before.push((m as int, j as int)));
            assert(call_views(out@) =~= start + Seq::new((j + 1) as nat, |j: int| (m as int, j)));
            j = j + 1;
        }
        assert(members@.take(i + 1).drop_last() =~= members@.take(i as int));
        assert(members@.take(i + 1).last() == m);
        i = i + 1;
    }
    assert(members@.take(i as int) =~= members@);
    out
}

/// The calls as integers.
pub open spec fn call_views(v: Seq<(usize, usize)>) -> Seq<(int, int)> {
    v.map_values(|c: (usize, usize)| (c.0 as int, c.1 as int))
}

/// A position with the key that it is ordered by.
struct Slot {
    index: u64,
    at: usize,
}

impl Ordered for Slot {
    closed spec fn before(self, other: Self) -> bool {
        self.index < other.index
    }

    fn is_before(&self, other: &Self) -> (r: bool) {
        self.index < other.index
    }
}

proof fn lemma_sort_inside(turns: Seq<TurnRecord>, members: Seq<usize>)
    ensures
        by_turn_index(turns, members).len() == members.len(),
        forall|i: int|
            0 <= i < members.len() ==> members.contains(
                #[trigger] by_turn_index(turns, members)[i],
            ),
{
    let s = by_turn_index(turns, members);
    order::lemma_sort_multiset(members, earlier(turns));
    members.to_multiset_ensures();
    s.to_multiset_ensures();
    assert forall|i: int| 0 <= i < members.len() implies members.contains(#[trigger] s[i]) by {
        assert(s.contains(s[i]));
        assert(s.to_multiset().count(s[i]) > 0);
        assert(members.to_multiset().count(s[i]) > 0);
    }
}

/// The positions in the order of their turn indices.
pub fn sort_by_turn_index(turns: &[TurnRecord], members: &Vec<usize>) -> (r: Vec<usize>)
    requires
        forall|i: int| 0 <= i < members@.len() ==> (#[trigger] members@[i]) < turns@.len(),
    ensures
        r@ == by_turn_index(turns@, members@),
        r@.len() == members@.len(),
        forall|i: int| 0 <= i < r@.len() ==> (#[trigger] r@[i]) < turns@.len(),
{
    let mut slots: Vec<Slot> = Vec::new();
    let mut i: usize = 0;
    while i < members.len()
        invariant
            i <= members@.len(),
            forall|i: int| 0 <= i < members@.len() ==> (#[trigger] members@[i]) < turns@.len(),
            slots@.len() == i,
            forall|k: int|
                0 <= k < i ==> (#[trigger] slots@[k]).at == members@[k] && slots@[k].index
                    == turns@[members@[k] as int].turn_index,
        decreases members@.len() - i,
    {
        slots.push(Slot { index: turns[members[i]].turn_index, at: members[i] });
        i = i + 1;
    }
    let ghost given = slots@;
    let sorted = order::sort(slots);
    let mut out: Vec<usize> = Vec::new();
    let mut j: usize = 0;
    while j < sorted.len()
        invariant
            j <= sorted@.len(),
            out@.len() == j,
            forall|k: int| 0 <= k < j ==> #[trigger] out@[k] == sorted@[k].at,
        decreases sorted@.len() - j,
    {
        out.push(sorted[j].at);
        j = j + 1;
    }
    proof {
        let f = |s: Slot| s.at;
        let slot = |at: usize| Slot { index: turns@[at as int].turn_index, at };
        assert(given =~= members@.map_values(slot));
        order::lemma_sort_map(members@, slot, earlier(turns@), order::order_of::<Slot>());
        assert(sorted@ == by_turn_index(turns@, members@).map_values(slot));
        assert(out@ =~= by_turn_index(turns@, members@));
        lemma_sort_inside(turns@, members@);
        assert forall|i: int| 0 <= i < out@.len() implies (#[trigger] out@[i]) < turns@.len() by {
            assert(members@.contains(out@[i]));
            let k = choose|k: int| 0 <= k < members@.len() && members@[k] == out@[i];
            assert(members@[k] < turns@.len());
        }
    }
    out
}

/// The turns of each session, sessions in first-seen order, turns as given.
pub fn group_turns_by_session(turns: &[TurnRecord]) -> (r: Vec<Group>)
    ensures
        groups::group_views(r@) == groups::groups_of(session_keys(turns@)),
        forall|i: int, j: int|
            #![trigger r@[i].members@[j]]
            0 <= i < r@.len() && 0 <= j < r@[i].members@.len() ==> r@[i].members@[j]
                < turns@.len(),
{
    let mut keys: Vec<String> = Vec::new();
    let mut i: usize = 0;
    while i < turns.len()
        invariant
            i <= turns@.len(),
            keys@.len() == i,
            forall|k: int| 0 <= k < i ==> (#[trigger] keys@[k])@ == turns@[k].session_id@,
        decreases turns@.len() - i,
    {
        keys.push(turns[i].session_id.clone());
        i = i + 1;
    }
    assert(text::views(keys@) =~= session_keys(turns@));
    let out = groups::group_by_key(&keys);
    let n: usize = turns.len();
    proof {
        let all = session_keys(turns@);
        assert forall|i: int, j: int|
            #![trigger out@[i].members@[j]]
            0 <= i < out@.len() && 0 <= j < out@[i].members@.len() implies out@[i].members@[j]
            < turns@.len() by {
            let g = groups::group_views(out@)[i];
            assert(g == groups::groups_of(all)[i]);
            let k = groups::first_seen(all)[i];
            groups::lemma_positions(all, k);
            assert(groups::group_views(out@).len() == out@.len());
            assert(g.1 == out@[i].members@);
            assert(g.1 == groups::positions(all, k));
            assert(groups::positions(all, k)[j] < all.len());
        }
    }
    out
}

/// The turns of each session, sessions in first-seen order, turns in the order
/// of their turn indices.
pub fn group_turns_by_session_sorted(turns: &[TurnRecord]) -> (r: Vec<Group>)
    ensures
        groups::group_views(r@) == sessions_of(turns@),
        forall|i: int, j: int|
            #![trigger r@[i].members@[j]]
            0 <= i < r@.len() && 0 <= j < r@[i].members@.len() ==> r@[i].members@[j]
                < turns@.len(),
{
    let found = group_turns_by_session(turns);
    let mut out: Vec<Group> = Vec::new();
    let mut i: usize = 0;
    while i < found.len()
        invariant
            i <= found@.len(),
            forall|i: int, j: int|
                #![trigger found@[i].members@[j]]
                0 <= i < found@.len() && 0 <= j < found@[i].members@.len()
                    ==> found@[i].members@[j] < turns@.len(),
            out@.len() == i,
            forall|k: int|
                0 <= k < i ==> (#[trigger] out@[k]).key@ == found@[k].key@ && out@[k].members@
                    == by_turn_index(turns@, found@[k].members@),
            forall|k: int, j: int|
                #![trigger out@[k].members@[j]]
                0 <= k < i && 0 <= j < out@[k].members@.len() ==> out@[k].members@[j]
                    < turns@.len(),
        decreases found@.len() - i,
    {
        let ghost before = out@;
        assert forall|j: int| 0 <= j < found@[i as int].members@.len() implies (
        #[trigger] found@[i as int].members@[j]) < turns@.len() by {}
        let members = sort_by_turn_index(turns, &found[i].members);
        out.push(Group { key: found[i].key.clone(), members });
        assert(forall|k: int| 0 <= k < i ==> out@[k] == before[k]);
        i = i + 1;
    }
    proof {
        let g = groups::groups_of(session_keys(turns@));
        assert(groups::group_views(found@) == g);
        assert forall|k: int| 0 <= k < out@.len() implies #[trigger] groups::group_views(out@)[k]
            == sessions_of(turns@)[k] by {
            assert(groups::group_views(found@)[k] == g[k]);
        }
        assert(groups::group_views(out@) =~= sessions_of(turns@));
    }
    out
}

} // verus!
