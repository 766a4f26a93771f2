//! Patterns of turns that follow one another: what is found in one slice of
//! turns does not depend on the other slices, as long as they share no session.

use crate::attempts;
use crate::compaction;
use crate::edits;
use crate::findings::{CancellationRun, EditRevertCycle, FailureRun, RetryLoop};
use crate::groups;
use crate::hotspots;
use crate::order;
use crate::patterns;
use crate::patterns::{DetectPatternsOptions, In, SessionFindings};
use crate::records::{ContentRecord, ToolResultEventRecord, TurnRecord};
use crate::sessions;
use crate::streaks;
use crate::streaks::{AttemptView, StreakKind};
use crate::text;
use vstd::prelude::*;

verus! {

/// The positions, moved back by `k`.
pub open spec fn moved(at: Seq<usize>, k: nat) -> Seq<usize> {
    at.map_values(|m: usize| (m + k) as usize)
}

/// Whether the turns `base` stand in `turns` from position `k` on.
pub open spec fn placed(turns: Seq<TurnRecord>, base: Seq<TurnRecord>, k: nat) -> bool {
    &&& k + base.len() <= turns.len() <= usize::MAX
    &&& forall|i: int| 0 <= i < base.len() ==> #[trigger] turns[k + i] == base[i]
}

/// A session, moved back by `k`.
pub open spec fn moved_session(s: (Seq<char>, Seq<usize>), k: nat) -> (Seq<char>, Seq<usize>) {
    (s.0, moved(s.1, k))
}

/// No session has turns in both slices.
pub open spec fn apart(a: Seq<TurnRecord>, b: Seq<TurnRecord>) -> bool {
    forall|i: int, j: int|
        #![trigger a[i], b[j]]
        0 <= i < a.len() && 0 <= j < b.len() ==> a[i].session_id@ != b[j].session_id@
}

proof fn lemma_by_turn_index(turns: Seq<TurnRecord>, base: Seq<TurnRecord>, k: nat, at: Seq<usize>)
    requires
        placed(turns, base, k),
        attempts::inside(at, base.len()),
    ensures
        sessions::by_turn_index(turns, moved(at, k)) == moved(sessions::by_turn_index(base, at), k),
        attempts::inside(sessions::by_turn_index(base, at), base.len()),
{
    let f = |m: usize| (m + k) as usize;
    let la = sessions::earlier(base);
    let lb = sessions::earlier(turns);
    let lc = |x: usize, y: usize| lb(f(x), f(y));
    assert forall|i: int, j: int|
        #![trigger at[i], at[j]]
        0 <= i < at.len() && 0 <= j < at.len() implies la(at[i], at[j]) == lc(at[i], at[j]) by {
        assert(turns[k + at[i]] == base[at[i] as int]);
        assert(turns[k + at[j]] == base[at[j] as int]);
    }
    order::lemma_sort_agree(at, la, lc);
    order::lemma_sort_map(at, f, lc, lb);
    order::lemma_sort_inside(at, la);
    let r = order::stable_sort(at, la);
    assert forall|i: int| 0 <= i < r.len() implies (#[trigger] r[i]) < base.len() by {
        assert(at.contains(r[i]));
    }
}

proof fn lemma_positions_first(a: Seq<Seq<char>>, b: Seq<Seq<char>>, key: Seq<char>)
    requires
        !b.contains(key),
    ensures
        groups::positions(a + b, key) == groups::positions(a, key),
    decreases b.len(),
{
    if b.len() == 0 {
        assert(a + b =~= a);
    } else {
        assert((a + b).drop_last() =~= a + b.drop_last());
        assert(b[b.len() - 1] == b.last());
        assert forall|i: int| 0 <= i < b.drop_last().len() implies b.drop_last()[i] != key by {
            assert(b.drop_last()[i] == b[i]);
        }
        lemma_positions_first(a, b.drop_last(), key);
    }
}

proof fn lemma_positions_second(a: Seq<Seq<char>>, b: Seq<Seq<char>>, key: Seq<char>)
    requires
        !a.contains(key),
        a.len() + b.len() <= usize::MAX,
    ensures
        groups::positions(a + b, key) == moved(groups::positions(b, key), a.len()),
    decreases b.len(),
{
    if b.len() == 0 {
        assert(a + b =~= a);
        lemma_positions_none(a, key);
        assert(moved(groups::positions(b, key), a.len()) =~= Seq::<usize>::empty());
    } else {
        assert((a + b).drop_last() =~= a + b.drop_last());
        lemma_positions_second(a, b.drop_last(), key);
        assert(groups::positions(a + b, key) =~= moved(groups::positions(b, key), a.len()));
    }
}

proof fn lemma_positions_none(a: Seq<Seq<char>>, key: Seq<char>)
    requires
        !a.contains(key),
    ensures
        groups::positions(a, key) == Seq::<usize>::empty(),
    decreases a.len(),
{
    if a.len() > 0 {
        assert(a[a.len() - 1] == a.last());
        assert forall|i: int| 0 <= i < a.drop_last().len() implies a.drop_last()[i] != key by {
            assert(a.drop_last()[i] == a[i]);
        }
        lemma_positions_none(a.drop_last(), key);
    }
}

proof fn lemma_first_seen_follow(a: Seq<Seq<char>>, b: Seq<Seq<char>>)
    requires
        forall|i: int, j: int|
            #![trigger a[i], b[j]]
            0 <= i < a.len() && 0 <= j < b.len() ==> a[i] != b[j],
    ensures
        groups::first_seen(a + b) == groups::first_seen(a) + groups::first_seen(b),
    decreases b.len(),
{
    let fa = groups::first_seen(a);
    if b.len() == 0 {
        assert(a + b =~= a);
        assert(fa + groups::first_seen(b) =~= fa);
    } else {
        let p = b.drop_last();
        let x = b.last();
        assert((a + b).drop_last() =~= a + p);
        assert forall|i: int, j: int|
            #![trigger a[i], p[j]]
            0 <= i < a.len() && 0 <= j < p.len() implies a[i] != p[j] by {
            assert(p[j] == b[j]);
        }
        lemma_first_seen_follow(a, p);
        let fp = groups::first_seen(p);
        groups::lemma_first_seen(a);
        assert(!fa.contains(x)) by {
            if fa.contains(x) {
                assert(a.contains(x));
                let i = choose|i: int| 0 <= i < a.len() && a[i] == x;
                assert(b[b.len() - 1] == x);
                assert(a[i] != b[b.len() - 1]);
            }
        }
        if fp.contains(x) {
            let i = choose|i: int| 0 <= i < fp.len() && fp[i] == x;
            assert((fa + fp)[fa.len() + i] == x);
        } else if (fa + fp).contains(x) {
            let i = choose|i: int| 0 <= i < (fa + fp).len() && (fa + fp)[i] == x;
            if i < fa.len() {
                assert(fa[i] == x);
            } else {
                assert(fp[i - fa.len()] == x);
            }
        }
        assert(fa + fp.push(x) =~= (fa + fp).push(x));
    }
}

proof fn lemma_session_inside(base: Seq<TurnRecord>, key: Seq<char>)
    requires
        base.len() <= usize::MAX,
    ensures
        attempts::inside(groups::positions(sessions::session_keys(base), key), base.len()),
{
    groups::lemma_positions(sessions::session_keys(base), key);
}

/// The sessions of the turns of both slices are those of the one and then those
/// of the other.
pub proof fn lemma_sessions_follow(a: Seq<TurnRecord>, b: Seq<TurnRecord>)
    requires
        apart(a, b),
        a.len() + b.len() <= usize::MAX,
    ensures
        sessions::sessions_of(a + b) == sessions::sessions_of(a) + sessions::sessions_of(
            b,
        ).map_values(|s: (Seq<char>, Seq<usize>)| moved_session(s, a.len())),
{
    let ka = sessions::session_keys(a);
    let kb = sessions::session_keys(b);
    let kab = sessions::session_keys(a + b);
    assert(kab =~= ka + kb);
    assert forall|i: int, j: int|
        #![trigger ka[i], kb[j]]
        0 <= i < ka.len() && 0 <= j < kb.len() implies ka[i] != kb[j] by {
        assert(a[i].session_id@ != b[j].session_id@);
    }
    lemma_first_seen_follow(ka, kb);
    groups::lemma_first_seen(ka);
    groups::lemma_first_seen(kb);
    let fa = groups::first_seen(ka);
    let fb = groups::first_seen(kb);
    let sa = sessions::sessions_of(a);
    let sb = sessions::sessions_of(b);
    let sab = sessions::sessions_of(a + b);
    let move_on = |s: (Seq<char>, Seq<usize>)| moved_session(s, a.len());
    assert(placed(a + b, a, 0));
    assert(placed(a + b, b, a.len()));
    assert(sab.len() == sa.len() + sb.len());
    assert forall|i: int| 0 <= i < sab.len() implies #[trigger] sab[i] == (sa + sb.map_values(
        move_on,
    ))[i] by {
        let key = groups::first_seen(kab)[i];
        if i < sa.len() {
            assert(fa.contains(fa[i]));
            assert(ka.contains(key));
            assert(!kb.contains(key)) by {
                if kb.contains(key) {
                    let x = choose|x: int| 0 <= x < ka.len() && ka[x] == key;
                    let y = choose|y: int| 0 <= y < kb.len() && kb[y] == key;
                    assert(ka[x] != kb[y]);
                }
            }
            lemma_positions_first(ka, kb, key);
            lemma_session_inside(a, key);
            let at = groups::positions(ka, key);
            lemma_by_turn_index(a + b, a, 0, at);
            assert(moved(at, 0) =~= at);
            assert(moved(sessions::by_turn_index(a, at), 0) =~= sessions::by_turn_index(a, at));
        } else {
            let j = i - sa.len();
            assert(key == fb[j]);
            assert(fb.contains(fb[j]));
            assert(kb.contains(key));
            assert(!ka.contains(key)) by {
                if ka.contains(key) {
                    let x = choose|x: int| 0 <= x < ka.len() && ka[x] == key;
                    let y = choose|y: int| 0 <= y < kb.len() && kb[y] == key;
                    assert(ka[x] != kb[y]);
                }
            }
            lemma_positions_second(ka, kb, key);
            lemma_session_inside(b, key);
            lemma_by_turn_index(a + b, b, a.len(), groups::positions(kb, key));
        }
    }
    assert(sab =~= sa + sb.map_values(move_on));
}

/// The calls, moved back by `k` turns.
pub open spec fn moved_calls(calls: Seq<(int, int)>, k: nat) -> Seq<(int, int)> {
    calls.map_values(|c: (int, int)| (c.0 + k, c.1))
}

/// An attempt, moved back by `k` turns.
pub open spec fn moved_attempt(a: AttemptView, k: nat) -> AttemptView {
    AttemptView {
        turn: match a.turn {
            Some(t) => Some((t + k) as usize),
            None => None,
        },
        ..a
    }
}

/// The attempts, moved back by `k` turns.
pub open spec fn moved_attempts(a: Seq<AttemptView>, k: nat) -> Seq<AttemptView> {
    a.map_values(|x: AttemptView| moved_attempt(x, k))
}

proof fn lemma_moved_drop(at: Seq<usize>, k: nat, n: nat)
    requires
        at.len() > 0,
        attempts::inside(at, n),
    ensures
        moved(at, k).drop_last() == moved(at.drop_last(), k),
        attempts::inside(at.drop_last(), n),
        at.last() < n,
{
    assert(moved(at, k).drop_last() =~= moved(at.drop_last(), k));
    assert(at[at.len() - 1] == at.last());
    assert forall|i: int| 0 <= i < at.drop_last().len() implies (#[trigger] at.drop_last()[i])
        < n by {
        assert(at.drop_last()[i] == at[i]);
    }
}

proof fn lemma_calls(turns: Seq<TurnRecord>, base: Seq<TurnRecord>, k: nat, at: Seq<usize>)
    requires
        placed(turns, base, k),
        attempts::inside(at, base.len()),
    ensures
        sessions::calls_of(turns, moved(at, k)) == moved_calls(sessions::calls_of(base, at), k),
    decreases at.len(),
{
    if at.len() > 0 {
        lemma_moved_drop(at, k, base.len());
        lemma_calls(turns, base, k, at.drop_last());
        let m = at.last() as int;
        assert(turns[k + m] == base[m]);
    }
    assert(sessions::calls_of(turns, moved(at, k)) =~= moved_calls(
        sessions::calls_of(base, at),
        k,
    ));
}

proof fn lemma_call_attempts(turns: Seq<TurnRecord>, base: Seq<TurnRecord>, k: nat, at: Seq<usize>)
    requires
        placed(turns, base, k),
        attempts::inside(at, base.len()),
    ensures
        attempts::call_attempts(turns, moved(at, k)) == moved_attempts(
            attempts::call_attempts(base, at),
            k,
        ),
{
    lemma_calls(turns, base, k, at);
    sessions::lemma_calls_inside(base, at);
    let calls = sessions::calls_of(base, at);
    let x = attempts::call_attempts(turns, moved(at, k));
    let y = moved_attempts(attempts::call_attempts(base, at), k);
    assert forall|i: int| 0 <= i < calls.len() implies #[trigger] x[i] == y[i] by {
        assert(turns[k + calls[i].0] == base[calls[i].0]);
    }
    assert(x =~= y);
}

proof fn lemma_last_call(
    turns: Seq<TurnRecord>,
    base: Seq<TurnRecord>,
    k: nat,
    calls: Seq<(int, int)>,
    id: Seq<char>,
)
    requires
        placed(turns, base, k),
        forall|i: int| 0 <= i < calls.len() ==> 0 <= (#[trigger] calls[i]).0 < base.len(),
    ensures
        attempts::last_call(turns, moved_calls(calls, k), id) == (match attempts::last_call(
            base,
            calls,
            id,
        ) {
            Some(c) => Some((c.0 + k, c.1)),
            None => None,
        }),
        attempts::last_call(base, calls, id) matches Some(c) ==> 0 <= c.0 < base.len(),
    decreases calls.len(),
{
    if calls.len() > 0 {
        let p = calls.drop_last();
        assert(moved_calls(calls, k).drop_last() =~= moved_calls(p, k));
        assert(calls[calls.len() - 1] == calls.last());
        assert(turns[k + calls.last().0] == base[calls.last().0]);
        assert forall|i: int| 0 <= i < p.len() implies 0 <= (#[trigger] p[i]).0 < base.len() by {
            assert(p[i] == calls[i]);
        }
        lemma_last_call(turns, base, k, p, id);
    }
}

proof fn lemma_turn_of_message(
    turns: Seq<TurnRecord>,
    base: Seq<TurnRecord>,
    k: nat,
    at: Seq<usize>,
    id: Seq<char>,
)
    requires
        placed(turns, base, k),
        attempts::inside(at, base.len()),
    ensures
        attempts::turn_of_message(turns, moved(at, k), id) == (match attempts::turn_of_message(
            base,
            at,
            id,
        ) {
            Some(t) => Some((t + k) as usize),
            None => None,
        }),
        attempts::turn_of_message(base, at, id) matches Some(t) ==> t < base.len(),
    decreases at.len(),
{
    if at.len() > 0 {
        lemma_moved_drop(at, k, base.len());
        assert(turns[k + at.last()] == base[at.last() as int]);
        lemma_turn_of_message(turns, base, k, at.drop_last(), id);
    }
}

proof fn lemma_lead(
    turns: Seq<TurnRecord>,
    base: Seq<TurnRecord>,
    k: nat,
    at: Seq<usize>,
    ts: Seq<char>,
)
    requires
        placed(turns, base, k),
        attempts::inside(at, base.len()),
    ensures
        attempts::lead(turns, moved(at, k), ts) == attempts::lead(base, at, ts),
        attempts::lead(base, at, ts) <= at.len(),
    decreases at.len(),
{
    if at.len() > 0 {
        assert(turns[k + at[0]] == base[at[0] as int]);
        let d = at.drop_first();
        assert(moved(at, k).drop_first() =~= moved(d, k));
        assert forall|i: int| 0 <= i < d.len() implies (#[trigger] d[i]) < base.len() by {
            assert(d[i] == at[i + 1]);
        }
        lemma_lead(turns, base, k, d, ts);
    }
}

proof fn lemma_event_attempt(
    turns: Seq<TurnRecord>,
    base: Seq<TurnRecord>,
    k: nat,
    at: Seq<usize>,
    e: ToolResultEventRecord,
)
    requires
        placed(turns, base, k),
        attempts::inside(at, base.len()),
    ensures
        attempts::event_attempt(turns, moved(at, k), e) == moved_attempt(
            attempts::event_attempt(base, at, e),
            k,
        ),
        attempts::event_attempt(base, at, e).turn matches Some(t) ==> t < base.len(),
{
    let calls = sessions::calls_of(base, at);
    lemma_calls(turns, base, k, at);
    sessions::lemma_calls_inside(base, at);
    lemma_last_call(turns, base, k, calls, e.tool_use_id@);
    match attempts::last_call(base, calls, e.tool_use_id@) {
        Some(c) => {
            assert(turns[k + c.0] == base[c.0]);
        },
        None => {
            if let Some(m) = e.message_id {
                lemma_turn_of_message(turns, base, k, at, m@);
            }
            if let Some(ts) = e.ts {
                lemma_lead(turns, base, k, at, ts@);
            }
            let t = attempts::turn_of_event(base, at, e);
            assert(attempts::turn_of_event(turns, moved(at, k), e) == (match t {
                Some(t) => Some((t + k) as usize),
                None => None,
            }));
            if let Some(t) = t {
                assert(t < base.len());
                assert(turns[k + t] == base[t as int]);
            }
        },
    }
}

proof fn lemma_attempts(
    turns: Seq<TurnRecord>,
    base: Seq<TurnRecord>,
    k: nat,
    events: Seq<ToolResultEventRecord>,
    s: (Seq<char>, Seq<usize>),
)
    requires
        placed(turns, base, k),
        attempts::inside(s.1, base.len()),
    ensures
        patterns::attempts_of(turns, events, moved_session(s, k)) == moved_attempts(
            patterns::attempts_of(base, events, s),
            k,
        ),
        streaks::turns_inside(patterns::attempts_of(base, events, s), base.len()),
{
    let a = patterns::attempts_of(base, events, s);
    if patterns::is_reported(events, s.0) {
        let ends = attempts::terminal_reports(events, patterns::reports_of(events, s.0));
        let x = patterns::attempts_of(turns, events, moved_session(s, k));
        let y = moved_attempts(patterns::attempts_of(base, events, s), k);
        assert forall|i: int| 0 <= i < ends.len() implies #[trigger] x[i] == y[i] by {
            lemma_event_attempt(turns, base, k, s.1, events[ends[i] as int]);
        }
        assert(x =~= y);
        assert forall|i: int| 0 <= i < a.len() && (#[trigger] a[i]).turn is Some implies a[i].turn->Some_0
            < base.len() by {
            lemma_event_attempt(turns, base, k, s.1, events[ends[i] as int]);
        }
    } else {
        lemma_call_attempts(turns, base, k, s.1);
        sessions::lemma_calls_inside(base, s.1);
        let calls = sessions::calls_of(base, s.1);
        assert forall|i: int| 0 <= i < a.len() && (#[trigger] a[i]).turn is Some implies a[i].turn->Some_0
            < base.len() by {
            assert(0 <= calls[i].0 < base.len());
        }
    }
}

proof fn lemma_walk_agree(
    n: int,
    keep: Seq<bool>,
    p: spec_fn(int, int) -> bool,
    q: spec_fn(int, int) -> bool,
)
    requires
        n <= keep.len(),
        forall|i: int, j: int|
            0 <= i < keep.len() && 0 <= j < keep.len() ==> #[trigger] p(i, j) == q(i, j),
    ensures
        streaks::walk(n, keep, p) == streaks::walk(n, keep, q),
        0 <= streaks::walk(n, keep, p).start,
        n >= 0 ==> streaks::walk(n, keep, p).start <= n,
    decreases n,
{
    if n > 0 {
        lemma_walk_agree(n - 1, keep, p, q);
        let w = streaks::walk(n - 1, keep, p);
        assert(w.start < n - 1 ==> p(w.start, n - 1) == q(w.start, n - 1));
    }
}

proof fn lemma_streaks_moved(kind: StreakKind, a: Seq<AttemptView>, k: nat)
    ensures
        streaks::streaks(kind, moved_attempts(a, k)) == streaks::streaks(kind, a),
{
    let b = moved_attempts(a, k);
    assert(streaks::kept(kind, b) =~= streaks::kept(kind, a));
    let keep = streaks::kept(kind, a);
    lemma_walk_agree(
        keep.len() as int,
        keep,
        streaks::joined(kind, b),
        streaks::joined(kind, a),
    );
}

proof fn lemma_pick_agree<T>(s: Seq<T>, p: spec_fn(T) -> bool, q: spec_fn(T) -> bool)
    requires
        forall|i: int| 0 <= i < s.len() ==> p(#[trigger] s[i]) == q(s[i]),
    ensures
        streaks::pick(s, p) == streaks::pick(s, q),
    decreases s.len(),
{
    if s.len() > 0 {
        let d = s.drop_last();
        assert forall|i: int| 0 <= i < d.len() implies p(#[trigger] d[i]) == q(d[i]) by {
            assert(d[i] == s[i]);
        }
        lemma_pick_agree(d, p, q);
        assert(s[s.len() - 1] == s.last());
    }
}

/// Whether `s` is a stretch of the attempts that is not empty.
spec fn is_stretch(s: (int, int), a: Seq<AttemptView>) -> bool {
    0 <= s.0 < s.1 <= a.len()
}

proof fn lemma_stretches(kind: StreakKind, a: Seq<AttemptView>)
    ensures
        forall|i: int|
            0 <= i < streaks::streaks(kind, a).len() ==> is_stretch(
                #[trigger] streaks::streaks(kind, a)[i],
                a,
            ),
{
    streaks::lemma_streaks(streaks::kept(kind, a), streaks::joined(kind, a));
}

proof fn lemma_picked_stretches(
    s: Seq<(int, int)>,
    p: spec_fn((int, int)) -> bool,
    a: Seq<AttemptView>,
)
    requires
        forall|i: int| 0 <= i < s.len() ==> is_stretch(#[trigger] s[i], a),
    ensures
        forall|i: int|
            0 <= i < streaks::pick(s, p).len() ==> is_stretch(#[trigger] streaks::pick(s, p)[i], a),
    decreases s.len(),
{
    if s.len() > 0 {
        let d = s.drop_last();
        assert forall|i: int| 0 <= i < d.len() implies is_stretch(#[trigger] d[i], a) by {
            assert(d[i] == s[i]);
        }
        lemma_picked_stretches(d, p, a);
        assert(s[s.len() - 1] == s.last());
        let r = streaks::pick(s, p);
        assert forall|i: int| 0 <= i < r.len() implies is_stretch(#[trigger] r[i], a) by {
            if i < streaks::pick(d, p).len() {
                assert(r[i] == streaks::pick(d, p)[i]);
            }
        }
    }
}

proof fn lemma_members(a: Seq<AttemptView>, k: nat, s: (int, int))
    requires
        is_stretch(s, a),
    ensures
        streaks::members_of(moved_attempts(a, k), s) == moved_attempts(
            streaks::members_of(a, s),
            k,
        ),
{
    assert(streaks::members_of(moved_attempts(a, k), s) =~= moved_attempts(
        streaks::members_of(a, s),
        k,
    ));
}

proof fn lemma_is_run(streak: Seq<AttemptView>, k: nat, graph: bool)
    requires
        streak.len() > 0,
    ensures
        streaks::is_run(moved_attempts(streak, k), graph) == streaks::is_run(streak, graph),
{
    let m = moved_attempts(streak, k);
    assert forall|i: int| 0 <= i < streak.len() implies streaks::attempt_key(#[trigger] m[i])
        == streaks::attempt_key(streak[i]) && m[i].source == streak[i].source by {}
    if streaks::one_key(streak) {
        assert forall|i: int| 0 <= i < m.len() implies streaks::attempt_key(#[trigger] m[i])
            == streaks::attempt_key(m[0]) by {
            assert(streaks::attempt_key(streak[i]) == streaks::attempt_key(streak[0]));
        }
    }
    if streaks::one_key(m) {
        assert forall|i: int| 0 <= i < streak.len() implies streaks::attempt_key(
            #[trigger] streak[i],
        ) == streaks::attempt_key(streak[0]) by {
            assert(streaks::attempt_key(m[i]) == streaks::attempt_key(m[0]));
        }
    }
    if streaks::has_other_source(streak) {
        let i = choose|i: int|
            0 <= i < streak.len() && (#[trigger] streak[i]).source
                != crate::records::ToolResultEventSource::ToolResult;
        assert(m[i].source == streak[i].source);
    }
    if streaks::has_other_source(m) {
        let i = choose|i: int|
            0 <= i < m.len() && (#[trigger] m[i]).source
                != crate::records::ToolResultEventSource::ToolResult;
        assert(m[i].source == streak[i].source);
    }
}

proof fn lemma_failure_streaks(a: Seq<AttemptView>, k: nat, graph: bool)
    ensures
        streaks::failure_streaks(moved_attempts(a, k), graph) == streaks::failure_streaks(a, graph),
{
    let b = moved_attempts(a, k);
    let s = streaks::streaks(StreakKind::Errored, a);
    lemma_streaks_moved(StreakKind::Errored, a, k);
    lemma_stretches(StreakKind::Errored, a);
    let p = |x: (int, int)| streaks::is_run(streaks::members_of(b, x), graph);
    let q = |x: (int, int)| streaks::is_run(streaks::members_of(a, x), graph);
    assert forall|i: int| 0 <= i < s.len() implies p(#[trigger] s[i]) == q(s[i]) by {
        lemma_members(a, k, s[i]);
        lemma_is_run(streaks::members_of(a, s[i]), k, graph);
    }
    lemma_pick_agree(s, p, q);
}

/// Whether the thing found is not empty, and on the first `n` turns.
spec fn is_filled(x: In<Seq<AttemptView>>, n: nat) -> bool {
    x.item.len() > 0 && streaks::turns_inside(x.item, n)
}

/// Whether all things found are so.
spec fn all_filled(x: Seq<In<Seq<AttemptView>>>, n: nat) -> bool {
    forall|i: int| 0 <= i < x.len() ==> is_filled(#[trigger] x[i], n)
}

/// A streak found in a session, moved back by `k` turns.
spec fn moved_streak(x: In<Seq<AttemptView>>, k: nat) -> In<Seq<AttemptView>> {
    In { session: x.session, members: moved(x.members, k), item: moved_attempts(x.item, k) }
}

/// The streaks found in sessions, moved back by `k` turns.
spec fn moved_in(x: Seq<In<Seq<AttemptView>>>, k: nat) -> Seq<In<Seq<AttemptView>>> {
    x.map_values(|y: In<Seq<AttemptView>>| moved_streak(y, k))
}

proof fn lemma_within(
    s: (Seq<char>, Seq<usize>),
    a: Seq<AttemptView>,
    list: Seq<(int, int)>,
    k: nat,
    n: nat,
)
    requires
        forall|i: int| 0 <= i < list.len() ==> is_stretch(#[trigger] list[i], a),
        streaks::turns_inside(a, n),
    ensures
        patterns::within(
            moved_session(s, k),
            patterns::taken(moved_attempts(a, k), list),
        ) == moved_in(patterns::within(s, patterns::taken(a, list)), k),
        all_filled(patterns::within(s, patterns::taken(a, list)), n),
{
    let x = patterns::within(moved_session(s, k), patterns::taken(moved_attempts(a, k), list));
    let y = moved_in(patterns::within(s, patterns::taken(a, list)), k);
    assert forall|i: int| 0 <= i < list.len() implies #[trigger] x[i] == y[i] by {
        lemma_members(a, k, list[i]);
    }
    assert(x =~= y);
    let w = patterns::within(s, patterns::taken(a, list));
    assert forall|i: int| 0 <= i < w.len() implies is_filled(#[trigger] w[i], n) by {
        let item = w[i].item;
        assert(is_stretch(list[i], a));
        assert forall|j: int|
            0 <= j < item.len() && (#[trigger] item[j]).turn is Some implies item[j].turn->Some_0
            < n by {
            assert(item[j] == a[list[i].0 + j]);
        }
    }
}


proof fn lemma_streaks_in(
    turns: Seq<TurnRecord>,
    base: Seq<TurnRecord>,
    k: nat,
    ev: Seq<ToolResultEventRecord>,
    s: (Seq<char>, Seq<usize>),
)
    requires
        placed(turns, base, k),
        attempts::inside(s.1, base.len()),
    ensures
        patterns::retries_in(turns, ev, moved_session(s, k)) == moved_in(
            patterns::retries_in(base, ev, s),
            k,
        ),
        patterns::failures_in(turns, ev, moved_session(s, k)) == moved_in(
            patterns::failures_in(base, ev, s),
            k,
        ),
        patterns::cancellations_in(turns, ev, moved_session(s, k)) == moved_in(
            patterns::cancellations_in(base, ev, s),
            k,
        ),
        all_filled(patterns::retries_in(base, ev, s), base.len()),
        all_filled(patterns::failures_in(base, ev, s), base.len()),
        all_filled(patterns::cancellations_in(base, ev, s), base.len()),
{
    let a = patterns::attempts_of(base, ev, s);
    let graph = patterns::is_reported(ev, s.0);
    lemma_attempts(turns, base, k, ev, s);
    let same = StreakKind::SameCallErrored;
    lemma_streaks_moved(same, a, k);
    lemma_stretches(same, a);
    let long = |x: (int, int)| x.1 - x.0 >= streaks::MIN_RETRY_LEN;
    lemma_picked_stretches(streaks::streaks(same, a), long, a);
    lemma_within(s, a, streaks::retry_streaks(a), k, base.len());
    lemma_failure_streaks(a, k, graph);
    lemma_stretches(StreakKind::Errored, a);
    let run = |x: (int, int)| streaks::is_run(streaks::members_of(a, x), graph);
    lemma_picked_stretches(streaks::streaks(StreakKind::Errored, a), run, a);
    lemma_within(s, a, streaks::failure_streaks(a, graph), k, base.len());
    lemma_streaks_moved(StreakKind::Cancelled, a, k);
    lemma_stretches(StreakKind::Cancelled, a);
    lemma_within(s, a, streaks::streaks(StreakKind::Cancelled, a), k, base.len());
    if !graph {
        assert(moved_in(Seq::empty(), k) =~= Seq::<In<Seq<AttemptView>>>::empty());
    }
}

proof fn lemma_distinct_turns(
    turns: Seq<TurnRecord>,
    base: Seq<TurnRecord>,
    k: nat,
    at: Seq<usize>,
)
    requires
        placed(turns, base, k),
        attempts::inside(at, base.len()),
    ensures
        streaks::distinct_turns(turns, moved(at, k)) == moved(
            streaks::distinct_turns(base, at),
            k,
        ),
        attempts::inside(streaks::distinct_turns(base, at), base.len()),
    decreases at.len(),
{
    if at.len() > 0 {
        lemma_moved_drop(at, k, base.len());
        lemma_distinct_turns(turns, base, k, at.drop_last());
        let rest = streaks::distinct_turns(base, at.drop_last());
        let more = streaks::distinct_turns(turns, moved(at, k).drop_last());
        let x = at.last();
        assert(turns[k + x] == base[x as int]);
        assert(moved(at, k).last() == k + x);
        if exists|i: int|
            0 <= i < rest.len() && streaks::turn_key(base[#[trigger] rest[i] as int])
                == streaks::turn_key(base[x as int]) {
            let i = choose|i: int|
                0 <= i < rest.len() && streaks::turn_key(base[#[trigger] rest[i] as int])
                    == streaks::turn_key(base[x as int]);
            assert(turns[k + rest[i]] == base[rest[i] as int]);
            assert(streaks::turn_key(turns[more[i] as int]) == streaks::turn_key(
                turns[(k + x) as int],
            ));
        } else {
            assert forall|i: int| 0 <= i < more.len() implies streaks::turn_key(
                turns[#[trigger] more[i] as int],
            ) != streaks::turn_key(turns[(k + x) as int]) by {
                assert(turns[k + rest[i]] == base[rest[i] as int]);
            }
            assert(moved(rest.push(x), k) =~= moved(rest, k).push((x + k) as usize));
        }
    } else {
        assert(moved(at, k) =~= at);
    }
}

proof fn lemma_turns_of(streak: Seq<AttemptView>, k: nat, n: nat)
    requires
        streaks::turns_inside(streak, n),
    ensures
        streaks::turns_of(moved_attempts(streak, k)) == moved(streaks::turns_of(streak), k),
        attempts::inside(streaks::turns_of(streak), n),
    decreases streak.len(),
{
    if streak.len() > 0 {
        let d = streak.drop_last();
        assert(moved_attempts(streak, k).drop_last() =~= moved_attempts(d, k));
        assert forall|i: int| 0 <= i < d.len() && (#[trigger] d[i]).turn is Some implies d[i].turn->Some_0
            < n by {
            assert(d[i] == streak[i]);
        }
        lemma_turns_of(d, k, n);
        assert(streak[streak.len() - 1] == streak.last());
    }
    assert(streaks::turns_of(moved_attempts(streak, k)) =~= moved(streaks::turns_of(streak), k));
}

proof fn lemma_signatures(streak: Seq<AttemptView>, k: nat, content: Seq<ContentRecord>)
    ensures
        streaks::signatures(moved_attempts(streak, k), content) == streaks::signatures(
            streak,
            content,
        ),
        streaks::run_signatures(moved_attempts(streak, k), content) == streaks::run_signatures(
            streak,
            content,
        ),
    decreases streak.len(),
{
    if streak.len() > 0 {
        assert(moved_attempts(streak, k).drop_last() =~= moved_attempts(streak.drop_last(), k));
        lemma_signatures(streak.drop_last(), k, content);
    }
}

proof fn lemma_source_of(streak: Seq<AttemptView>, k: nat)
    requires
        streak.len() > 0,
    ensures
        streaks::source_of(moved_attempts(streak, k)) == streaks::source_of(streak),
        streaks::tools_of(moved_attempts(streak, k)) == streaks::tools_of(streak),
{
    let m = moved_attempts(streak, k);
    assert(streaks::tools_of(m) =~= streaks::tools_of(streak));
    assert forall|i: int| 0 <= i < streak.len() implies (#[trigger] m[i]).source
        == streak[i].source by {}
    if forall|i: int| 0 <= i < m.len() ==> (#[trigger] m[i]).source == m[0].source {
        assert forall|i: int| 0 <= i < streak.len() implies (#[trigger] streak[i]).source
            == streak[0].source by {
            assert(m[i].source == m[0].source);
        }
    }
}

/// Whether the loop `r` is the loop `p`, moved back by `k` turns.
pub open spec fn same_loop(r: RetryLoop, p: RetryLoop, k: nat) -> bool {
    &&& r.session_id@ == p.session_id@
    &&& r.tool@ == p.tool@
    &&& text::opt_view(r.target) == text::opt_view(p.target)
    &&& r.args_hash@ == p.args_hash@
    &&& r.attempts == p.attempts
    &&& r.start_turn_index == p.start_turn_index
    &&& r.end_turn_index == p.end_turn_index
    &&& r.cost_turns@ == moved(p.cost_turns@, k)
    &&& text::opt_view(r.error_signature) == text::opt_view(p.error_signature)
    &&& r.event_source == p.event_source
}

/// Whether the run `r` is the run `p`, moved back by `k` turns.
pub open spec fn same_run(r: FailureRun, p: FailureRun, k: nat) -> bool {
    &&& r.session_id@ == p.session_id@
    &&& r.length == p.length
    &&& r.start_turn_index == p.start_turn_index
    &&& r.end_turn_index == p.end_turn_index
    &&& text::views(r.tools_involved@) == text::views(p.tools_involved@)
    &&& r.cost_turns@ == moved(p.cost_turns@, k)
    &&& match (r.error_signatures, p.error_signatures) {
        (Some(v), Some(w)) => streaks::signature_views(v@) == streaks::signature_views(w@),
        (None, None) => true,
        _ => false,
    }
    &&& r.event_source == p.event_source
}

/// Whether the run `r` is the run `p`, moved back by `k` turns.
pub open spec fn same_cancellation(r: CancellationRun, p: CancellationRun, k: nat) -> bool {
    &&& r.session_id@ == p.session_id@
    &&& r.length == p.length
    &&& r.start_turn_index == p.start_turn_index
    &&& r.end_turn_index == p.end_turn_index
    &&& text::views(r.tools_involved@) == text::views(p.tools_involved@)
    &&& r.cost_turns@ == moved(p.cost_turns@, k)
    &&& r.event_source == p.event_source
}

/// Whether the cycle `r` is the cycle `p`, moved back by `k` turns.
pub open spec fn same_cycle(r: EditRevertCycle, p: EditRevertCycle, k: nat) -> bool {
    &&& r.session_id@ == p.session_id@
    &&& r.file_path@ == p.file_path@
    &&& r.first_edit_turn_index == p.first_edit_turn_index
    &&& r.revert_turn_index == p.revert_turn_index
    &&& r.span_turns == p.span_turns
    &&& r.cost_turns@ == moved(p.cost_turns@, k)
    &&& match (r.sample_preview, p.sample_preview) {
        (Some(v), Some(w)) => edits::preview_view(v.first_edit) == edits::preview_view(w.first_edit)
            && edits::preview_view(v.revert) == edits::preview_view(w.revert),
        (None, None) => true,
        _ => false,
    }
}

proof fn lemma_costs(
    turns: Seq<TurnRecord>,
    base: Seq<TurnRecord>,
    k: nat,
    streak: Seq<AttemptView>,
)
    requires
        placed(turns, base, k),
        streaks::turns_inside(streak, base.len()),
    ensures
        streaks::distinct_turns(turns, streaks::turns_of(moved_attempts(streak, k))) == moved(
            streaks::distinct_turns(base, streaks::turns_of(streak)),
            k,
        ),
{
    lemma_turns_of(streak, k, base.len());
    lemma_distinct_turns(turns, base, k, streaks::turns_of(streak));
}

proof fn lemma_same_loop(
    r: RetryLoop,
    p: RetryLoop,
    turns: Seq<TurnRecord>,
    base: Seq<TurnRecord>,
    k: nat,
    session: Seq<char>,
    streak: Seq<AttemptView>,
    content: Seq<ContentRecord>,
    graph: bool,
)
    requires
        placed(turns, base, k),
        streaks::turns_inside(streak, base.len()),
        streak.len() > 0,
        streaks::is_retry_loop(r, session, turns, moved_attempts(streak, k), content, graph),
        streaks::is_retry_loop(p, session, base, streak, content, graph),
    ensures
        same_loop(r, p, k),
{
    lemma_costs(turns, base, k, streak);
    lemma_signatures(streak, k, content);
    lemma_source_of(streak, k);
    assert(streak[streak.len() - 1] == streak.last());
}

proof fn lemma_same_run(
    r: FailureRun,
    p: FailureRun,
    turns: Seq<TurnRecord>,
    base: Seq<TurnRecord>,
    k: nat,
    session: Seq<char>,
    streak: Seq<AttemptView>,
    content: Seq<ContentRecord>,
    graph: bool,
)
    requires
        placed(turns, base, k),
        streaks::turns_inside(streak, base.len()),
        streak.len() > 0,
        streaks::is_failure_run(r, session, turns, moved_attempts(streak, k), content, graph),
        streaks::is_failure_run(p, session, base, streak, content, graph),
    ensures
        same_run(r, p, k),
{
    lemma_costs(turns, base, k, streak);
    lemma_signatures(streak, k, content);
    lemma_source_of(streak, k);
    assert(streak[streak.len() - 1] == streak.last());
}

proof fn lemma_same_cancellation(
    r: CancellationRun,
    p: CancellationRun,
    turns: Seq<TurnRecord>,
    base: Seq<TurnRecord>,
    k: nat,
    session: Seq<char>,
    streak: Seq<AttemptView>,
)
    requires
        placed(turns, base, k),
        streaks::turns_inside(streak, base.len()),
        streak.len() > 0,
        streaks::is_cancellation_run(r, session, turns, moved_attempts(streak, k)),
        streaks::is_cancellation_run(p, session, base, streak),
    ensures
        same_cancellation(r, p, k),
{
    lemma_costs(turns, base, k, streak);
    lemma_source_of(streak, k);
    assert(streak[streak.len() - 1] == streak.last());
}

proof fn lemma_first_reverted(
    turns: Seq<TurnRecord>,
    base: Seq<TurnRecord>,
    k: nat,
    calls: Seq<(int, int)>,
    live: Seq<int>,
    b: int,
)
    requires
        placed(turns, base, k),
        forall|i: int| 0 <= i < calls.len() ==> 0 <= (#[trigger] calls[i]).0 < base.len(),
        forall|i: int| 0 <= i < live.len() ==> 0 <= #[trigger] live[i] < calls.len(),
        0 <= b < calls.len(),
    ensures
        edits::first_reverted(turns, moved_calls(calls, k), live, b) == edits::first_reverted(
            base,
            calls,
            live,
            b,
        ),
    decreases live.len(),
{
    if live.len() > 0 {
        let d = live.drop_last();
        assert forall|i: int| 0 <= i < d.len() implies 0 <= #[trigger] d[i] < calls.len() by {
            assert(d[i] == live[i]);
        }
        lemma_first_reverted(turns, base, k, calls, d, b);
        let x = live.last();
        assert(live[live.len() - 1] == x);
        assert(turns[k + calls[x].0] == base[calls[x].0]);
        assert(turns[k + calls[b].0] == base[calls[b].0]);
    }
}

proof fn lemma_revert_walk(
    turns: Seq<TurnRecord>,
    base: Seq<TurnRecord>,
    k: nat,
    calls: Seq<(int, int)>,
    n: int,
)
    requires
        placed(turns, base, k),
        forall|i: int| 0 <= i < calls.len() ==> 0 <= (#[trigger] calls[i]).0 < base.len(),
        n <= calls.len(),
    ensures
        edits::revert_walk(turns, moved_calls(calls, k), n) == edits::revert_walk(base, calls, n),
    decreases n,
{
    if n > 0 {
        let b = n - 1;
        let far = moved_calls(calls, k);
        lemma_revert_walk(turns, base, k, calls, b);
        edits::lemma_reverts(base, calls, b);
        let st = edits::revert_walk(base, calls, b);
        assert(turns[k + calls[b].0] == base[calls[b].0]);
        lemma_first_reverted(turns, base, k, calls, st.live, b);
        let p = |x: int|
            text::opt_view(edits::call_at(turns, far[x]).target) != text::opt_view(
                edits::call_at(turns, far[b]).target,
            );
        let q = |x: int|
            text::opt_view(edits::call_at(base, calls[x]).target) != text::opt_view(
                edits::call_at(base, calls[b]).target,
            );
        assert forall|i: int| 0 <= i < st.live.len() implies p(#[trigger] st.live[i]) == q(
            st.live[i],
        ) by {
            let x = st.live[i];
            assert(turns[k + calls[x].0] == base[calls[x].0]);
        }
        lemma_pick_agree(st.live, p, q);
    }
}

/// The edits found in sessions, moved back by `k` turns.
spec fn moved_pair(x: In<(int, int)>, k: nat) -> In<(int, int)> {
    In { session: x.session, members: moved(x.members, k), item: x.item }
}

/// Whether the pair is one of two calls of the session's turns, which are among
/// the first turns.
spec fn is_pair(x: In<(int, int)>, base: Seq<TurnRecord>) -> bool {
    &&& attempts::inside(x.members, base.len())
    &&& 0 <= x.item.0 < x.item.1 < sessions::calls_of(base, x.members).len()
}

proof fn lemma_reverts_in(
    turns: Seq<TurnRecord>,
    base: Seq<TurnRecord>,
    k: nat,
    s: (Seq<char>, Seq<usize>),
)
    requires
        placed(turns, base, k),
        attempts::inside(s.1, base.len()),
    ensures
        patterns::reverts_in(turns, moved_session(s, k)) == patterns::reverts_in(
            base,
            s,
        ).map_values(|x: In<(int, int)>| moved_pair(x, k)),
        forall|i: int|
            0 <= i < patterns::reverts_in(base, s).len() ==> is_pair(
                #[trigger] patterns::reverts_in(base, s)[i],
                base,
            ),
{
    let calls = sessions::calls_of(base, s.1);
    lemma_calls(turns, base, k, s.1);
    sessions::lemma_calls_inside(base, s.1);
    lemma_revert_walk(turns, base, k, calls, calls.len() as int);
    edits::lemma_reverts(base, calls, calls.len() as int);
    assert(patterns::reverts_in(turns, moved_session(s, k)) =~= patterns::reverts_in(
        base,
        s,
    ).map_values(|x: In<(int, int)>| moved_pair(x, k)));
    let found = edits::reverts_of(base, calls);
    assert forall|i: int| 0 <= i < patterns::reverts_in(base, s).len() implies is_pair(
        #[trigger] patterns::reverts_in(base, s)[i],
        base,
    ) by {
        assert(0 <= found[i].0 < found[i].1 < calls.len());
    }
}

proof fn lemma_same_cycle(
    r: EditRevertCycle,
    p: EditRevertCycle,
    turns: Seq<TurnRecord>,
    base: Seq<TurnRecord>,
    k: nat,
    x: In<(int, int)>,
    content: Seq<ContentRecord>,
)
    requires
        placed(turns, base, k),
        is_pair(x, base),
        edits::is_cycle(
            r,
            x.session,
            turns,
            sessions::calls_of(turns, moved(x.members, k)),
            x.item,
            content,
        ),
        edits::is_cycle(
            p,
            x.session,
            base,
            sessions::calls_of(base, x.members),
            x.item,
            content,
        ),
    ensures
        same_cycle(r, p, k),
{
    let calls = sessions::calls_of(base, x.members);
    lemma_calls(turns, base, k, x.members);
    sessions::lemma_calls_inside(base, x.members);
    let first = calls[x.item.0];
    let second = calls[x.item.1];
    assert(turns[k + first.0] == base[first.0]);
    assert(turns[k + second.0] == base[second.0]);
    let at = seq![first.0 as usize, second.0 as usize];
    lemma_distinct_turns(turns, base, k, at);
    assert(moved(at, k) =~= seq![(first.0 + k) as usize, (second.0 + k) as usize]);
}

proof fn lemma_chain_append<A>(x: Seq<Seq<A>>, y: Seq<Seq<A>>)
    ensures
        compaction::chain(x + y) == compaction::chain(x) + compaction::chain(y),
    decreases y.len(),
{
    if y.len() == 0 {
        assert(x + y =~= x);
        assert(compaction::chain(x) + compaction::chain(y) =~= compaction::chain(x));
    } else {
        assert((x + y).drop_last() =~= x + y.drop_last());
        lemma_chain_append(x, y.drop_last());
        assert(compaction::chain(x + y) =~= compaction::chain(x) + compaction::chain(y));
    }
}

proof fn lemma_chain_map<S, T>(
    list: Seq<S>,
    f: spec_fn(S) -> Seq<T>,
    h: spec_fn(S) -> Seq<T>,
    g: spec_fn(T) -> T,
)
    requires
        forall|i: int| 0 <= i < list.len() ==> h(#[trigger] list[i]) == f(list[i]).map_values(g),
    ensures
        compaction::chain(list.map_values(h)) == compaction::chain(list.map_values(f)).map_values(g),
    decreases list.len(),
{
    let ch = compaction::chain(list.map_values(h));
    let cf = compaction::chain(list.map_values(f));
    if list.len() > 0 {
        let d = list.drop_last();
        assert forall|i: int| 0 <= i < d.len() implies h(#[trigger] d[i]) == f(d[i]).map_values(
            g,
        ) by {
            assert(d[i] == list[i]);
        }
        lemma_chain_map(d, f, h, g);
        assert(list.map_values(h).drop_last() =~= d.map_values(h));
        assert(list.map_values(f).drop_last() =~= d.map_values(f));
        assert(list[list.len() - 1] == list.last());
    }
    assert(ch =~= cf.map_values(g));
}

proof fn lemma_chain_all<S, T>(list: Seq<S>, f: spec_fn(S) -> Seq<T>, p: spec_fn(T) -> bool)
    requires
        forall|i: int, j: int|
            0 <= i < list.len() && 0 <= j < f(list[i]).len() ==> p(#[trigger] f(list[i])[j]),
    ensures
        forall|j: int|
            0 <= j < compaction::chain(list.map_values(f)).len() ==> p(
                #[trigger] compaction::chain(list.map_values(f))[j],
            ),
    decreases list.len(),
{
    if list.len() > 0 {
        let d = list.drop_last();
        assert forall|i: int, j: int| 0 <= i < d.len() && 0 <= j < f(d[i]).len() implies p(
            #[trigger] f(d[i])[j],
        ) by {
            assert(d[i] == list[i]);
        }
        lemma_chain_all(d, f, p);
        assert(list.map_values(f).drop_last() =~= d.map_values(f));
        let all = compaction::chain(list.map_values(f));
        let most = compaction::chain(d.map_values(f));
        assert forall|j: int| 0 <= j < all.len() implies p(#[trigger] all[j]) by {
            if j < most.len() {
                assert(all[j] == most[j]);
            } else {
                assert(list[list.len() - 1] == list.last());
                assert(all[j] == f(list[list.len() - 1])[j - most.len()]);
            }
        }
    }
}

proof fn lemma_sessions_inside(base: Seq<TurnRecord>, i: int)
    requires
        base.len() <= usize::MAX,
        0 <= i < sessions::sessions_of(base).len(),
    ensures
        attempts::inside(sessions::sessions_of(base)[i].1, base.len()),
{
    let key = groups::first_seen(sessions::session_keys(base))[i];
    lemma_session_inside(base, key);
    assert(placed(base, base, 0));
    lemma_by_turn_index(base, base, 0, groups::positions(sessions::session_keys(base), key));
}

/// What all sessions of `base` hold, as found in `turns`.
spec fn found_in<T>(
    turns: Seq<TurnRecord>,
    base: Seq<TurnRecord>,
    k: nat,
    f: spec_fn(Seq<TurnRecord>, (Seq<char>, Seq<usize>)) -> Seq<T>,
) -> Seq<T> {
    compaction::chain(
        sessions::sessions_of(base).map_values(
            |s: (Seq<char>, Seq<usize>)| f(turns, moved_session(s, k)),
        ),
    )
}

/// What all sessions hold.
spec fn found_of<T>(
    turns: Seq<TurnRecord>,
    f: spec_fn(Seq<TurnRecord>, (Seq<char>, Seq<usize>)) -> Seq<T>,
) -> Seq<T> {
    compaction::chain(
        sessions::sessions_of(turns).map_values(|s: (Seq<char>, Seq<usize>)| f(turns, s)),
    )
}

proof fn lemma_found_follow<T>(
    a: Seq<TurnRecord>,
    b: Seq<TurnRecord>,
    f: spec_fn(Seq<TurnRecord>, (Seq<char>, Seq<usize>)) -> Seq<T>,
)
    requires
        apart(a, b),
        a.len() + b.len() <= usize::MAX,
    ensures
        found_of(a + b, f) == found_in(a + b, a, 0, f) + found_in(a + b, b, a.len(), f),
{
    lemma_sessions_follow(a, b);
    let k = a.len();
    let t = a + b;
    let sa = sessions::sessions_of(a);
    let sb = sessions::sessions_of(b);
    let move_on = |s: (Seq<char>, Seq<usize>)| moved_session(s, k);
    let g = |s: (Seq<char>, Seq<usize>)| f(t, s);
    let ha = |s: (Seq<char>, Seq<usize>)| f(t, moved_session(s, 0));
    let hb = |s: (Seq<char>, Seq<usize>)| f(t, moved_session(s, k));
    assert((sa + sb.map_values(move_on)).map_values(g) =~= sa.map_values(ha) + sb.map_values(hb))
        by {
        assert forall|i: int| 0 <= i < sa.len() implies g(#[trigger] sa[i]) == ha(sa[i]) by {
            assert(moved(sa[i].1, 0) =~= sa[i].1);
            assert(moved_session(sa[i], 0) == sa[i]);
        }
    }
    lemma_chain_append(sa.map_values(ha), sb.map_values(hb));
}

/// Whether the findings `whole` are `first` and then `second`, the latter moved
/// back by `k` turns.
pub open spec fn follow<T>(
    whole: Seq<T>,
    first: Seq<T>,
    second: Seq<T>,
    k: nat,
    same: spec_fn(T, T, nat) -> bool,
) -> bool {
    &&& whole.len() == first.len() + second.len()
    &&& forall|i: int| 0 <= i < first.len() ==> same(#[trigger] whole[i], first[i], 0)
    &&& forall|i: int|
        0 <= i < second.len() ==> same(whole[first.len() + i], #[trigger] second[i], k)
}

proof fn lemma_retries_moved(
    turns: Seq<TurnRecord>,
    base: Seq<TurnRecord>,
    k: nat,
    ev: Seq<ToolResultEventRecord>,
    f: spec_fn(Seq<TurnRecord>, (Seq<char>, Seq<usize>)) -> Seq<In<Seq<AttemptView>>>,
)
    requires
        placed(turns, base, k),
        f == (|t: Seq<TurnRecord>, s: (Seq<char>, Seq<usize>)| patterns::retries_in(t, ev, s)),
    ensures
        found_in(turns, base, k, f) == moved_in(found_of(base, f), k),
        all_filled(found_of(base, f), base.len()),
{
    let list = sessions::sessions_of(base);
    let near = |s: (Seq<char>, Seq<usize>)| f(base, s);
    let far = |s: (Seq<char>, Seq<usize>)| f(turns, moved_session(s, k));
    let g = |y: In<Seq<AttemptView>>| moved_streak(y, k);
    let p = |y: In<Seq<AttemptView>>| is_filled(y, base.len());
    assert forall|i: int| 0 <= i < list.len() implies far(#[trigger] list[i]) == near(
        list[i],
    ).map_values(g) by {
        lemma_sessions_inside(base, i);
        lemma_streaks_in(turns, base, k, ev, list[i]);
        assert(moved_in(near(list[i]), k) =~= near(list[i]).map_values(g));
    }
    lemma_chain_map(list, near, far, g);
    assert forall|i: int, j: int| 0 <= i < list.len() && 0 <= j < near(list[i]).len() implies p(
        #[trigger] near(list[i])[j],
    ) by {
        lemma_sessions_inside(base, i);
        lemma_streaks_in(turns, base, k, ev, list[i]);
    }
    lemma_chain_all(list, near, p);
    assert(found_of(base, f).map_values(g) =~= moved_in(found_of(base, f), k));
}

proof fn lemma_failures_moved(
    turns: Seq<TurnRecord>,
    base: Seq<TurnRecord>,
    k: nat,
    ev: Seq<ToolResultEventRecord>,
    f: spec_fn(Seq<TurnRecord>, (Seq<char>, Seq<usize>)) -> Seq<In<Seq<AttemptView>>>,
)
    requires
        placed(turns, base, k),
        f == (|t: Seq<TurnRecord>, s: (Seq<char>, Seq<usize>)| patterns::failures_in(t, ev, s)),
    ensures
        found_in(turns, base, k, f) == moved_in(found_of(base, f), k),
        all_filled(found_of(base, f), base.len()),
{
    let list = sessions::sessions_of(base);
    let near = |s: (Seq<char>, Seq<usize>)| f(base, s);
    let far = |s: (Seq<char>, Seq<usize>)| f(turns, moved_session(s, k));
    let g = |y: In<Seq<AttemptView>>| moved_streak(y, k);
    let p = |y: In<Seq<AttemptView>>| is_filled(y, base.len());
    assert forall|i: int| 0 <= i < list.len() implies far(#[trigger] list[i]) == near(
        list[i],
    ).map_values(g) by {
        lemma_sessions_inside(base, i);
        lemma_streaks_in(turns, base, k, ev, list[i]);
        assert(moved_in(near(list[i]), k) =~= near(list[i]).map_values(g));
    }
    lemma_chain_map(list, near, far, g);
    assert forall|i: int, j: int| 0 <= i < list.len() && 0 <= j < near(list[i]).len() implies p(
        #[trigger] near(list[i])[j],
    ) by {
        lemma_sessions_inside(base, i);
        lemma_streaks_in(turns, base, k, ev, list[i]);
    }
    lemma_chain_all(list, near, p);
    assert(found_of(base, f).map_values(g) =~= moved_in(found_of(base, f), k));
}

proof fn lemma_cancellations_moved(
    turns: Seq<TurnRecord>,
    base: Seq<TurnRecord>,
    k: nat,
    ev: Seq<ToolResultEventRecord>,
    f: spec_fn(Seq<TurnRecord>, (Seq<char>, Seq<usize>)) -> Seq<In<Seq<AttemptView>>>,
)
    requires
        placed(turns, base, k),
        f == (|t: Seq<TurnRecord>, s: (Seq<char>, Seq<usize>)| patterns::cancellations_in(t, ev, s)),
    ensures
        found_in(turns, base, k, f) == moved_in(found_of(base, f), k),
        all_filled(found_of(base, f), base.len()),
{
    let list = sessions::sessions_of(base);
    let near = |s: (Seq<char>, Seq<usize>)| f(base, s);
    let far = |s: (Seq<char>, Seq<usize>)| f(turns, moved_session(s, k));
    let g = |y: In<Seq<AttemptView>>| moved_streak(y, k);
    let p = |y: In<Seq<AttemptView>>| is_filled(y, base.len());
    assert forall|i: int| 0 <= i < list.len() implies far(#[trigger] list[i]) == near(
        list[i],
    ).map_values(g) by {
        lemma_sessions_inside(base, i);
        lemma_streaks_in(turns, base, k, ev, list[i]);
        assert(moved_in(near(list[i]), k) =~= near(list[i]).map_values(g));
    }
    lemma_chain_map(list, near, far, g);
    assert forall|i: int, j: int| 0 <= i < list.len() && 0 <= j < near(list[i]).len() implies p(
        #[trigger] near(list[i])[j],
    ) by {
        lemma_sessions_inside(base, i);
        lemma_streaks_in(turns, base, k, ev, list[i]);
    }
    lemma_chain_all(list, near, p);
    assert(found_of(base, f).map_values(g) =~= moved_in(found_of(base, f), k));
}

/// The retry loops of both slices are those of the one and then those of the
/// other.
proof fn lemma_retries_follow(
    a: Seq<TurnRecord>,
    b: Seq<TurnRecord>,
    opts: DetectPatternsOptions,
    whole: Seq<RetryLoop>,
    first: Seq<RetryLoop>,
    second: Seq<RetryLoop>,
    f: spec_fn(Seq<TurnRecord>, (Seq<char>, Seq<usize>)) -> Seq<In<Seq<AttemptView>>>,
)
    requires
        apart(a, b),
        a.len() + b.len() <= usize::MAX,
        f == (|t: Seq<TurnRecord>, s: (Seq<char>, Seq<usize>)|
            patterns::retries_in(t, opts.tool_result_events@, s)),
        patterns::matched(
            whole,
            found_of(a + b, f),
            patterns::retry_rule(a + b, opts.content_by_session@, opts.tool_result_events@),
        ),
        patterns::matched(
            first,
            found_of(a, f),
            patterns::retry_rule(a, opts.content_by_session@, opts.tool_result_events@),
        ),
        patterns::matched(
            second,
            found_of(b, f),
            patterns::retry_rule(b, opts.content_by_session@, opts.tool_result_events@),
        ),
    ensures
        follow(whole, first, second, a.len(), |r: RetryLoop, p: RetryLoop, k: nat| same_loop(r, p, k)),
{
    let ev = opts.tool_result_events@;
    let content = opts.content_by_session@;
    let t = a + b;
    let k = a.len();
    assert(placed(t, a, 0));
    assert(placed(t, b, k));
    lemma_found_follow(a, b, f);
    lemma_retries_moved(t, a, 0, ev, f);
    lemma_retries_moved(t, b, k, ev, f);
    let xa = found_of(a, f);
    let xb = found_of(b, f);
    let all = found_of(t, f);
    assert forall|i: int| 0 <= i < first.len() implies same_loop(#[trigger] whole[i], first[i], 0) by {
        let x = xa[i];
        assert(all[i] == moved_in(xa, 0)[i]);
        assert(all[i] == moved_streak(x, 0));
        assert(patterns::retry_rule(t, opts.content_by_session@, opts.tool_result_events@)(
            whole[i],
            all[i],
        ));
        assert(patterns::retry_rule(a, opts.content_by_session@, opts.tool_result_events@)(
            first[i],
            x,
        ));
        assert(is_filled(x, a.len()));
        lemma_same_loop(
            whole[i],
            first[i],
            t,
            a,
            0,
            x.session,
            x.item,
            hotspots::records_of(content, x.session),
            patterns::is_reported(ev, x.session),
        );
    }
    assert forall|i: int| 0 <= i < second.len() implies same_loop(
        whole[first.len() + i],
        #[trigger] second[i],
        k,
    ) by {
        let x = xb[i];
        assert(all[first.len() + i] == moved_in(xb, k)[i]);
        assert(all[first.len() + i] == moved_streak(x, k));
        assert(patterns::retry_rule(t, opts.content_by_session@, opts.tool_result_events@)(
            whole[first.len() + i],
            all[first.len() + i],
        ));
        assert(patterns::retry_rule(b, opts.content_by_session@, opts.tool_result_events@)(
            second[i],
            x,
        ));
        assert(is_filled(x, b.len()));
        lemma_same_loop(
            whole[first.len() + i],
            second[i],
            t,
            b,
            k,
            x.session,
            x.item,
            hotspots::records_of(content, x.session),
            patterns::is_reported(ev, x.session),
        );
    }
}

/// The failures of both slices are those of the one and then those of the
/// other.
proof fn lemma_failures_follow(
    a: Seq<TurnRecord>,
    b: Seq<TurnRecord>,
    opts: DetectPatternsOptions,
    whole: Seq<FailureRun>,
    first: Seq<FailureRun>,
    second: Seq<FailureRun>,
    f: spec_fn(Seq<TurnRecord>, (Seq<char>, Seq<usize>)) -> Seq<In<Seq<AttemptView>>>,
)
    requires
        apart(a, b),
        a.len() + b.len() <= usize::MAX,
        f == (|t: Seq<TurnRecord>, s: (Seq<char>, Seq<usize>)|
            patterns::failures_in(t, opts.tool_result_events@, s)),
        patterns::matched(
            whole,
            found_of(a + b, f),
            patterns::failure_rule(a + b, opts.content_by_session@, opts.tool_result_events@),
        ),
        patterns::matched(
            first,
            found_of(a, f),
            patterns::failure_rule(a, opts.content_by_session@, opts.tool_result_events@),
        ),
        patterns::matched(
            second,
            found_of(b, f),
            patterns::failure_rule(b, opts.content_by_session@, opts.tool_result_events@),
        ),
    ensures
        follow(whole, first, second, a.len(), |r: FailureRun, p: FailureRun, k: nat| same_run(r, p, k)),
{
    let ev = opts.tool_result_events@;
    let content = opts.content_by_session@;
    let t = a + b;
    let k = a.len();
    assert(placed(t, a, 0));
    assert(placed(t, b, k));
    lemma_found_follow(a, b, f);
    lemma_failures_moved(t, a, 0, ev, f);
    lemma_failures_moved(t, b, k, ev, f);
    let xa = found_of(a, f);
    let xb = found_of(b, f);
    let all = found_of(t, f);
    assert forall|i: int| 0 <= i < first.len() implies same_run(#[trigger] whole[i], first[i], 0) by {
        let x = xa[i];
        assert(all[i] == moved_in(xa, 0)[i]);
        assert(all[i] == moved_streak(x, 0));
        assert(patterns::failure_rule(t, opts.content_by_session@, opts.tool_result_events@)(
            whole[i],
            all[i],
        ));
        assert(patterns::failure_rule(a, opts.content_by_session@, opts.tool_result_events@)(
            first[i],
            x,
        ));
        assert(is_filled(x, a.len()));
        lemma_same_run(
            whole[i],
            first[i],
            t,
            a,
            0,
            x.session,
            x.item,
            hotspots::records_of(content, x.session),
            patterns::is_reported(ev, x.session),
        );
    }
    assert forall|i: int| 0 <= i < second.len() implies same_run(
        whole[first.len() + i],
        #[trigger] second[i],
        k,
    ) by {
        let x = xb[i];
        assert(all[first.len() + i] == moved_in(xb, k)[i]);
        assert(all[first.len() + i] == moved_streak(x, k));
        assert(patterns::failure_rule(t, opts.content_by_session@, opts.tool_result_events@)(
            whole[first.len() + i],
            all[first.len() + i],
        ));
        assert(patterns::failure_rule(b, opts.content_by_session@, opts.tool_result_events@)(
            second[i],
            x,
        ));
        assert(is_filled(x, b.len()));
        lemma_same_run(
            whole[first.len() + i],
            second[i],
            t,
            b,
            k,
            x.session,
            x.item,
            hotspots::records_of(content, x.session),
            patterns::is_reported(ev, x.session),
        );
    }
}

/// The cancellations of both slices are those of the one and then those of the
/// other.
proof fn lemma_cancellations_follow(
    a: Seq<TurnRecord>,
    b: Seq<TurnRecord>,
    opts: DetectPatternsOptions,
    whole: Seq<CancellationRun>,
    first: Seq<CancellationRun>,
    second: Seq<CancellationRun>,
    f: spec_fn(Seq<TurnRecord>, (Seq<char>, Seq<usize>)) -> Seq<In<Seq<AttemptView>>>,
)
    requires
        apart(a, b),
        a.len() + b.len() <= usize::MAX,
        f == (|t: Seq<TurnRecord>, s: (Seq<char>, Seq<usize>)|
            patterns::cancellations_in(t, opts.tool_result_events@, s)),
        patterns::matched(whole, found_of(a + b, f), patterns::cancellation_rule(a + b)),
        patterns::matched(first, found_of(a, f), patterns::cancellation_rule(a)),
        patterns::matched(second, found_of(b, f), patterns::cancellation_rule(b)),
    ensures
        follow(whole, first, second, a.len(), |r: CancellationRun, p: CancellationRun, k: nat| same_cancellation(r, p, k)),
{
    let ev = opts.tool_result_events@;
    let content = opts.content_by_session@;
    let t = a + b;
    let k = a.len();
    assert(placed(t, a, 0));
    assert(placed(t, b, k));
    lemma_found_follow(a, b, f);
    lemma_cancellations_moved(t, a, 0, ev, f);
    lemma_cancellations_moved(t, b, k, ev, f);
    let xa = found_of(a, f);
    let xb = found_of(b, f);
    let all = found_of(t, f);
    assert forall|i: int| 0 <= i < first.len() implies same_cancellation(#[trigger] whole[i], first[i], 0) by {
        let x = xa[i];
        assert(all[i] == moved_in(xa, 0)[i]);
        assert(all[i] == moved_streak(x, 0));
        assert(patterns::cancellation_rule(t)(whole[i], all[i]));
        assert(patterns::cancellation_rule(a)(first[i], x));
        assert(is_filled(x, a.len()));
        lemma_same_cancellation(whole[i], first[i], t, a, 0, x.session, x.item);
    }
    assert forall|i: int| 0 <= i < second.len() implies same_cancellation(
        whole[first.len() + i],
        #[trigger] second[i],
        k,
    ) by {
        let x = xb[i];
        assert(all[first.len() + i] == moved_in(xb, k)[i]);
        assert(all[first.len() + i] == moved_streak(x, k));
        assert(patterns::cancellation_rule(t)(whole[first.len() + i], all[first.len() + i]));
        assert(patterns::cancellation_rule(b)(second[i], x));
        assert(is_filled(x, b.len()));
        lemma_same_cancellation(whole[first.len() + i], second[i], t, b, k, x.session, x.item);
    }
}

proof fn lemma_reverts_moved(
    turns: Seq<TurnRecord>,
    base: Seq<TurnRecord>,
    k: nat,
    f: spec_fn(Seq<TurnRecord>, (Seq<char>, Seq<usize>)) -> Seq<In<(int, int)>>,
)
    requires
        placed(turns, base, k),
        f == (|t: Seq<TurnRecord>, s: (Seq<char>, Seq<usize>)| patterns::reverts_in(t, s)),
    ensures
        found_in(turns, base, k, f) == found_of(base, f).map_values(
            |x: In<(int, int)>| moved_pair(x, k),
        ),
        forall|i: int|
            0 <= i < found_of(base, f).len() ==> is_pair(#[trigger] found_of(base, f)[i], base),
{
    let list = sessions::sessions_of(base);
    let near = |s: (Seq<char>, Seq<usize>)| f(base, s);
    let far = |s: (Seq<char>, Seq<usize>)| f(turns, moved_session(s, k));
    let g = |x: In<(int, int)>| moved_pair(x, k);
    let p = |x: In<(int, int)>| is_pair(x, base);
    assert forall|i: int| 0 <= i < list.len() implies far(#[trigger] list[i]) == near(
        list[i],
    ).map_values(g) by {
        lemma_sessions_inside(base, i);
        lemma_reverts_in(turns, base, k, list[i]);
    }
    lemma_chain_map(list, near, far, g);
    assert forall|i: int, j: int| 0 <= i < list.len() && 0 <= j < near(list[i]).len() implies p(
        #[trigger] near(list[i])[j],
    ) by {
        lemma_sessions_inside(base, i);
        lemma_reverts_in(turns, base, k, list[i]);
    }
    lemma_chain_all(list, near, p);
}

/// The reverted edits of both slices are those of the one and then those of the
/// other.
proof fn lemma_reverts_follow(
    a: Seq<TurnRecord>,
    b: Seq<TurnRecord>,
    opts: DetectPatternsOptions,
    whole: Seq<EditRevertCycle>,
    first: Seq<EditRevertCycle>,
    second: Seq<EditRevertCycle>,
    f: spec_fn(Seq<TurnRecord>, (Seq<char>, Seq<usize>)) -> Seq<In<(int, int)>>,
)
    requires
        apart(a, b),
        a.len() + b.len() <= usize::MAX,
        f == (|t: Seq<TurnRecord>, s: (Seq<char>, Seq<usize>)| patterns::reverts_in(t, s)),
        patterns::matched(
            whole,
            found_of(a + b, f),
            patterns::revert_rule(a + b, opts.content_by_session@),
        ),
        patterns::matched(
            first,
            found_of(a, f),
            patterns::revert_rule(a, opts.content_by_session@),
        ),
        patterns::matched(
            second,
            found_of(b, f),
            patterns::revert_rule(b, opts.content_by_session@),
        ),
    ensures
        follow(
            whole,
            first,
            second,
            a.len(),
            |r: EditRevertCycle, p: EditRevertCycle, k: nat| same_cycle(r, p, k),
        ),
{
    let content = opts.content_by_session@;
    let t = a + b;
    let k = a.len();
    assert(placed(t, a, 0));
    assert(placed(t, b, k));
    lemma_found_follow(a, b, f);
    lemma_reverts_moved(t, a, 0, f);
    lemma_reverts_moved(t, b, k, f);
    let xa = found_of(a, f);
    let xb = found_of(b, f);
    let all = found_of(t, f);
    assert forall|i: int| 0 <= i < first.len() implies same_cycle(#[trigger] whole[i], first[i], 0) by {
        let x = xa[i];
        assert(all[i] == moved_pair(x, 0));
        assert(patterns::revert_rule(t, content)(whole[i], all[i]));
        assert(patterns::revert_rule(a, content)(first[i], x));
        assert(is_pair(x, a));
        lemma_same_cycle(
            whole[i],
            first[i],
            t,
            a,
            0,
            x,
            hotspots::records_of(content, x.session),
        );
    }
    assert forall|i: int| 0 <= i < second.len() implies same_cycle(
        whole[first.len() + i],
        #[trigger] second[i],
        k,
    ) by {
        let x = xb[i];
        assert(all[first.len() + i] == moved_pair(x, k));
        assert(patterns::revert_rule(t, content)(whole[first.len() + i], all[first.len() + i]));
        assert(patterns::revert_rule(b, content)(second[i], x));
        assert(is_pair(x, b));
        lemma_same_cycle(
            whole[first.len() + i],
            second[i],
            t,
            b,
            k,
            x,
            hotspots::records_of(content, x.session),
        );
    }
}

/// Patterns belong to sessions: the retry loops, failure runs, cancellation runs
/// and reverted edits of two slices of turns that share no session are those of
/// the first and then those of the second, the turns of the latter counted
/// behind those of the former.
pub proof fn lemma_patterns_follow(
    a: Seq<TurnRecord>,
    b: Seq<TurnRecord>,
    opts: DetectPatternsOptions,
    whole: SessionFindings,
    first: SessionFindings,
    second: SessionFindings,
)
    requires
        apart(a, b),
        a.len() + b.len() <= usize::MAX,
        whole.covers(a + b, opts, sessions::sessions_of(a + b)),
        first.covers(a, opts, sessions::sessions_of(a)),
        second.covers(b, opts, sessions::sessions_of(b)),
    ensures
        follow(
            whole.retry_loops@,
            first.retry_loops@,
            second.retry_loops@,
            a.len(),
            |r: RetryLoop, p: RetryLoop, k: nat| same_loop(r, p, k),
        ),
        follow(
            whole.failure_runs@,
            first.failure_runs@,
            second.failure_runs@,
            a.len(),
            |r: FailureRun, p: FailureRun, k: nat| same_run(r, p, k),
        ),
        follow(
            whole.cancelled_runs@,
            first.cancelled_runs@,
            second.cancelled_runs@,
            a.len(),
            |r: CancellationRun, p: CancellationRun, k: nat| same_cancellation(r, p, k),
        ),
        follow(
            whole.edit_reverts@,
            first.edit_reverts@,
            second.edit_reverts@,
            a.len(),
            |r: EditRevertCycle, p: EditRevertCycle, k: nat| same_cycle(r, p, k),
        ),
{
    let ev = opts.tool_result_events@;
    let retries = |t: Seq<TurnRecord>, s: (Seq<char>, Seq<usize>)| patterns::retries_in(t, ev, s);
    assert(sessions::sessions_of(a + b).map_values(
        |g: (Seq<char>, Seq<usize>)| patterns::retries_in(a + b, ev, g),
    ) =~= sessions::sessions_of(a + b).map_values(
        |g: (Seq<char>, Seq<usize>)| retries(a + b, g),
    ));
    assert(sessions::sessions_of(a).map_values(
        |g: (Seq<char>, Seq<usize>)| patterns::retries_in(a, ev, g),
    ) =~= sessions::sessions_of(a).map_values(
        |g: (Seq<char>, Seq<usize>)| retries(a, g),
    ));
    assert(sessions::sessions_of(b).map_values(
        |g: (Seq<char>, Seq<usize>)| patterns::retries_in(b, ev, g),
    ) =~= sessions::sessions_of(b).map_values(
        |g: (Seq<char>, Seq<usize>)| retries(b, g),
    ));
    lemma_retries_follow(
        a,
        b,
        opts,
        whole.retry_loops@,
        first.retry_loops@,
        second.retry_loops@,
        retries,
    );
    let failures = |t: Seq<TurnRecord>, s: (Seq<char>, Seq<usize>)| patterns::failures_in(t, ev, s);
    assert(sessions::sessions_of(a + b).map_values(
        |g: (Seq<char>, Seq<usize>)| patterns::failures_in(a + b, ev, g),
    ) =~= sessions::sessions_of(a + b).map_values(
        |g: (Seq<char>, Seq<usize>)| failures(a + b, g),
    ));
    assert(sessions::sessions_of(a).map_values(
        |g: (Seq<char>, Seq<usize>)| patterns::failures_in(a, ev, g),
    ) =~= sessions::sessions_of(a).map_values(
        |g: (Seq<char>, Seq<usize>)| failures(a, g),
    ));
    assert(sessions::sessions_of(b).map_values(
        |g: (Seq<char>, Seq<usize>)| patterns::failures_in(b, ev, g),
    ) =~= sessions::sessions_of(b).map_values(
        |g: (Seq<char>, Seq<usize>)| failures(b, g),
    ));
    lemma_failures_follow(
        a,
        b,
        opts,
        whole.failure_runs@,
        first.failure_runs@,
        second.failure_runs@,
        failures,
    );
    let cancellations = |t: Seq<TurnRecord>, s: (Seq<char>, Seq<usize>)| patterns::cancellations_in(t, ev, s);
    assert(sessions::sessions_of(a + b).map_values(
        |g: (Seq<char>, Seq<usize>)| patterns::cancellations_in(a + b, ev, g),
    ) =~= sessions::sessions_of(a + b).map_values(
        |g: (Seq<char>, Seq<usize>)| cancellations(a + b, g),
    ));
    assert(sessions::sessions_of(a).map_values(
        |g: (Seq<char>, Seq<usize>)| patterns::cancellations_in(a, ev, g),
    ) =~= sessions::sessions_of(a).map_values(
        |g: (Seq<char>, Seq<usize>)| cancellations(a, g),
    ));
    assert(sessions::sessions_of(b).map_values(
        |g: (Seq<char>, Seq<usize>)| patterns::cancellations_in(b, ev, g),
    ) =~= sessions::sessions_of(b).map_values(
        |g: (Seq<char>, Seq<usize>)| cancellations(b, g),
    ));
    lemma_cancellations_follow(
        a,
        b,
        opts,
        whole.cancelled_runs@,
        first.cancelled_runs@,
        second.cancelled_runs@,
        cancellations,
    );
    let reverts = |t: Seq<TurnRecord>, s: (Seq<char>, Seq<usize>)| patterns::reverts_in(t, s);
    assert(sessions::sessions_of(a + b).map_values(
        |g: (Seq<char>, Seq<usize>)| patterns::reverts_in(a + b, g),
    ) =~= sessions::sessions_of(a + b).map_values(
        |g: (Seq<char>, Seq<usize>)| reverts(a + b, g),
    ));
    assert(sessions::sessions_of(a).map_values(
        |g: (Seq<char>, Seq<usize>)| patterns::reverts_in(a, g),
    ) =~= sessions::sessions_of(a).map_values(
        |g: (Seq<char>, Seq<usize>)| reverts(a, g),
    ));
    assert(sessions::sessions_of(b).map_values(
        |g: (Seq<char>, Seq<usize>)| patterns::reverts_in(b, g),
    ) =~= sessions::sessions_of(b).map_values(
        |g: (Seq<char>, Seq<usize>)| reverts(b, g),
    ));
    lemma_reverts_follow(
        a,
        b,
        opts,
        whole.edit_reverts@,
        first.edit_reverts@,
        second.edit_reverts@,
        reverts,
    );
}

} // verus!
