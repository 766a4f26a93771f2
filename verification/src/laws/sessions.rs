//! How turns fall into sessions.

use crate::groups;
use crate::order;
use crate::records::TurnRecord;
use crate::sessions;
use vstd::prelude::*;

verus! {

/// The order, with ties in the order of the positions.
spec fn settled(lt: spec_fn(usize, usize) -> bool) -> spec_fn(usize, usize) -> bool {
    |a: usize, b: usize| lt(a, b) || (!lt(b, a) && a < b)
}

proof fn lemma_insert_settled(s: Seq<usize>, x: usize, lt: spec_fn(usize, usize) -> bool)
    requires
        forall|i: int| 0 <= i < s.len() ==> #[trigger] s[i] < x,
    ensures
        order::insert_sorted(s, x, lt) == order::insert_sorted(s, x, settled(lt)),
    decreases s.len(),
{
    if s.len() > 0 {
        assert(s[s.len() - 1] < x);
        let d = s.drop_last();
        assert forall|i: int| 0 <= i < d.len() implies #[trigger] d[i] < x by {
            assert(d[i] == s[i]);
        }
        lemma_insert_settled(d, x, lt);
    }
}

proof fn lemma_sort_settled(s: Seq<usize>, lt: spec_fn(usize, usize) -> bool)
    requires
        forall|i: int, j: int| 0 <= i < j < s.len() ==> s[i] < s[j],
    ensures
        order::stable_sort(s, lt) == order::stable_sort(s, settled(lt)),
    decreases s.len(),
{
    if s.len() > 0 {
        let d = s.drop_last();
        lemma_sort_settled(d, lt);
        order::lemma_sort_inside(d, lt);
        let r = order::stable_sort(d, lt);
        assert forall|i: int| 0 <= i < r.len() implies #[trigger] r[i] < s.last() by {
            assert(d.contains(r[i]));
            let k = choose|k: int| 0 <= k < d.len() && d[k] == r[i];
            assert(s[k] < s[s.len() - 1]);
        }
        lemma_insert_settled(r, s.last(), lt);
    }
}

proof fn lemma_settled_is_weak(lt: spec_fn(usize, usize) -> bool)
    requires
        order::strict_weak(lt),
    ensures
        order::strict_weak(settled(lt)),
{
    let w = settled(lt);
    assert forall|a: usize, b: usize, c: usize| #[trigger] w(a, b) && #[trigger] w(b, c) implies w(
        a,
        c,
    ) by {
        assert(lt(a, c) || !lt(a, c));
        assert(lt(c, a) || !lt(c, a));
        assert(lt(b, a) || !lt(b, a));
        assert(lt(c, b) || !lt(c, b));
    }
    assert forall|a: usize, b: usize, c: usize| #[trigger] w(a, c) implies w(a, b) || #[trigger] w(
        b,
        c,
    ) by {
        assert(lt(a, b) || !lt(a, b));
        assert(lt(b, a) || !lt(b, a));
        assert(lt(b, c) || !lt(b, c));
        assert(lt(c, b) || !lt(c, b));
        assert(lt(c, a) || !lt(c, a));
    }
}

/// What is sorted stands in order, and what ties as it stood.
pub proof fn lemma_sorted_positions(s: Seq<usize>, lt: spec_fn(usize, usize) -> bool)
    requires
        order::strict_weak(lt),
        forall|i: int, j: int| 0 <= i < j < s.len() ==> s[i] < s[j],
    ensures
        ({
            let r = order::stable_sort(s, lt);
            &&& r.len() == s.len()
            &&& forall|i: int, j: int|
                #![trigger r[i], r[j]]
                0 <= i < j < r.len() ==> lt(r[i], r[j]) || (!lt(r[j], r[i]) && r[i] < r[j])
            &&& forall|x: usize| #[trigger] r.contains(x) <==> s.contains(x)
        }),
{
    let r = order::stable_sort(s, lt);
    lemma_sort_settled(s, lt);
    lemma_settled_is_weak(lt);
    order::lemma_sort_in_order(s, settled(lt));
    order::lemma_sort_multiset(s, lt);
    s.to_multiset_ensures();
    r.to_multiset_ensures();
    assert(forall|i: int, j: int| 0 <= i < j < s.len() ==> s[i] != s[j]);
    assert(s.no_duplicates());
    s.lemma_multiset_has_no_duplicates();
    r.lemma_multiset_has_no_duplicates_conv();
    assert forall|i: int, j: int|
        #![trigger r[i], r[j]]
        0 <= i < j < r.len() implies lt(r[i], r[j]) || (!lt(r[j], r[i]) && r[i] < r[j]) by {
        assert(!settled(lt)(r[j], r[i]));
        assert(r[i] != r[j]);
    }
    assert forall|x: usize| #[trigger] r.contains(x) <==> s.contains(x) by {
        assert(r.to_multiset().count(x) == s.to_multiset().count(x));
    }
}

proof fn lemma_earlier_is_weak(turns: Seq<TurnRecord>)
    ensures
        order::strict_weak(sessions::earlier(turns)),
{
}

/// Every turn stands in a session under its id.
pub proof fn lemma_turns_have_a_session(turns: Seq<TurnRecord>, i: int) -> (r: (int, int))
    requires
        turns.len() <= usize::MAX,
        0 <= i < turns.len(),
    ensures
        0 <= r.0 < sessions::sessions_of(turns).len(),
        sessions::sessions_of(turns)[r.0].0 == turns[i].session_id@,
        0 <= r.1 < sessions::sessions_of(turns)[r.0].1.len(),
        sessions::sessions_of(turns)[r.0].1[r.1] == i,
{
    let keys = sessions::session_keys(turns);
    let id = turns[i].session_id@;
    assert(keys[i] == id);
    groups::lemma_first_seen(keys);
    groups::lemma_positions(keys, id);
    assert(keys.contains(id));
    assert(groups::first_seen(keys).contains(id));
    let g = choose|g: int|
        0 <= g < groups::first_seen(keys).len() && groups::first_seen(keys)[g] == id;
    let p = groups::positions(keys, id);
    assert(p.contains(i as usize));
    lemma_earlier_is_weak(turns);
    lemma_sorted_positions(p, sessions::earlier(turns));
    let r = sessions::by_turn_index(turns, p);
    assert(r.contains(i as usize));
    let k = choose|k: int| 0 <= k < r.len() && r[k] == i as usize;
    assert(groups::groups_of(keys)[g] == (id, p));
    assert(sessions::sessions_of(turns)[g] == (id, r));
    (g, k)
}

/// A session holds turns of its own alone, each once, in the order of their
/// turn indices, and turns of one index as they were given.
pub proof fn lemma_sessions_hold_their_turns(turns: Seq<TurnRecord>, g: int)
    requires
        turns.len() <= usize::MAX,
        0 <= g < sessions::sessions_of(turns).len(),
    ensures
        ({
            let (id, m) = sessions::sessions_of(turns)[g];
            &&& m.len() > 0
            &&& forall|k: int|
                0 <= k < m.len() ==> (#[trigger] m[k]) < turns.len()
                    && turns[m[k] as int].session_id@ == id
            &&& forall|k: int, l: int|
                #![trigger m[k], m[l]]
                0 <= k < l < m.len() ==> {
                    let a = turns[m[k] as int].turn_index;
                    let b = turns[m[l] as int].turn_index;
                    a < b || (a == b && m[k] < m[l])
                }
        }),
{
    let keys = sessions::session_keys(turns);
    groups::lemma_first_seen(keys);
    let id = groups::first_seen(keys)[g];
    assert(groups::first_seen(keys).contains(id));
    assert(keys.contains(id));
    let p = groups::positions(keys, id);
    groups::lemma_positions(keys, id);
    lemma_earlier_is_weak(turns);
    let lt = sessions::earlier(turns);
    lemma_sorted_positions(p, lt);
    let m = sessions::by_turn_index(turns, p);
    assert(groups::groups_of(keys)[g] == (id, p));
    assert(sessions::sessions_of(turns)[g] == (id, m));
    assert forall|k: int| 0 <= k < m.len() implies (#[trigger] m[k]) < turns.len()
        && turns[m[k] as int].session_id@ == id by {
        assert(m.contains(m[k]));
        assert(p.contains(m[k]));
        let j = choose|j: int| 0 <= j < p.len() && p[j] == m[k];
        assert(keys[p[j] as int] == id);
    }
    assert forall|k: int, l: int|
        #![trigger m[k], m[l]]
        0 <= k < l < m.len() implies ({
        let a = turns[m[k] as int].turn_index;
        let b = turns[m[l] as int].turn_index;
        a < b || (a == b && m[k] < m[l])
    }) by {
        assert(lt(m[k], m[l]) || (!lt(m[l], m[k]) && m[k] < m[l]));
    }
}

proof fn lemma_first_seen_at(keys: Seq<Seq<char>>, g: int, h: int) -> (i: int)
    requires
        0 <= g < h < groups::first_seen(keys).len(),
    ensures
        0 <= i < keys.len(),
        keys[i] == groups::first_seen(keys)[g],
        forall|j: int| 0 <= j <= i ==> #[trigger] keys[j] != groups::first_seen(keys)[h],
    decreases keys.len(),
{
    let d = keys.drop_last();
    let fs = groups::first_seen(d);
    groups::lemma_first_seen(d);
    groups::lemma_first_seen(keys);
    if h < fs.len() {
        let i = lemma_first_seen_at(d, g, h);
        assert forall|j: int| 0 <= j <= i implies #[trigger] keys[j]
            != groups::first_seen(keys)[h] by {
            assert(d[j] == keys[j]);
        }
        i
    } else {
        let a = fs[g];
        assert(fs.contains(a));
        assert(d.contains(a));
        let i = choose|i: int| 0 <= i < d.len() && d[i] == a;
        assert forall|j: int| 0 <= j <= i implies #[trigger] keys[j]
            != groups::first_seen(keys)[h] by {
            assert(d[j] == keys[j]);
            assert(d.contains(d[j]));
            assert(fs.contains(d[j]));
            assert(!fs.contains(keys.last()));
        }
        i
    }
}

/// The sessions stand in the order in which they are first seen, each once.
pub proof fn lemma_sessions_in_order(turns: Seq<TurnRecord>, g: int, h: int) -> (i: int)
    requires
        0 <= g < h < sessions::sessions_of(turns).len(),
    ensures
        0 <= i < turns.len(),
        turns[i].session_id@ == sessions::sessions_of(turns)[g].0,
        forall|j: int|
            0 <= j <= i ==> (#[trigger] turns[j]).session_id@ != sessions::sessions_of(turns)[h].0,
{
    let keys = sessions::session_keys(turns);
    let i = lemma_first_seen_at(keys, g, h);
    assert forall|j: int| 0 <= j <= i implies (#[trigger] turns[j]).session_id@
        != sessions::sessions_of(turns)[h].0 by {
        assert(keys[j] == turns[j].session_id@);
    }
    i
}

/// Every call of every turn at `members` is among the calls.
pub proof fn lemma_calls_are_all(
    turns: Seq<TurnRecord>,
    members: Seq<usize>,
    k: int,
    j: int,
) -> (p: int)
    requires
        0 <= k < members.len(),
        0 <= j < turns[members[k] as int].tool_calls@.len(),
    ensures
        0 <= p < sessions::calls_of(turns, members).len(),
        sessions::calls_of(turns, members)[p] == (members[k] as int, j),
    decreases members.len(),
{
    let d = members.drop_last();
    if k < d.len() {
        assert(d[k] == members[k]);
        lemma_calls_are_all(turns, d, k, j)
    } else {
        sessions::calls_of(turns, d).len() + j
    }
}

/// The calls stand in the order of their turns, and those of one turn in the
/// order in which it made them.
pub proof fn lemma_calls_in_order(turns: Seq<TurnRecord>, members: Seq<usize>, p: int, q: int) -> (
    r: (int, int))
    requires
        0 <= p < q < sessions::calls_of(turns, members).len(),
    ensures
        ({
            let a = sessions::calls_of(turns, members)[p];
            let b = sessions::calls_of(turns, members)[q];
            &&& 0 <= r.0 <= r.1 < members.len()
            &&& a.0 == members[r.0]
            &&& b.0 == members[r.1]
            &&& 0 <= a.1 < turns[a.0].tool_calls@.len()
            &&& 0 <= b.1 < turns[b.0].tool_calls@.len()
            &&& r.0 == r.1 ==> a.1 < b.1
        }),
    decreases members.len(),
{
    let d = members.drop_last();
    let before = sessions::calls_of(turns, d);
    if q < before.len() {
        let r = lemma_calls_in_order(turns, d, p, q);
        assert(d[r.0] == members[r.0] && d[r.1] == members[r.1]);
        r
    } else if p < before.len() {
        let k = lemma_call_of_turn(turns, d, p);
        assert(d[k] == members[k]);
        (k, members.len() - 1)
    } else {
        (members.len() - 1, members.len() - 1)
    }
}

/// Every call is one of a turn at `members`.
pub proof fn lemma_call_of_turn(turns: Seq<TurnRecord>, members: Seq<usize>, p: int) -> (k: int)
    requires
        0 <= p < sessions::calls_of(turns, members).len(),
    ensures
        0 <= k < members.len(),
        sessions::calls_of(turns, members)[p].0 == members[k],
        0 <= sessions::calls_of(turns, members)[p].1
            < turns[members[k] as int].tool_calls@.len(),
    decreases members.len(),
{
    let d = members.drop_last();
    let before = sessions::calls_of(turns, d);
    if p < before.len() {
        let k = lemma_call_of_turn(turns, d, p);
        assert(d[k] == members[k]);
        k
    } else {
        members.len() - 1
    }
}

} // verus!
