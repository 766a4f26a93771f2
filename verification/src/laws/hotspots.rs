//! What the turns of a session pay for its tool results.

use crate::hotspots;
use crate::hotspots::{
    AttributionMethod, BySession, Ledger, RowShares, SessionAttribution, ShareView, ToolRow,
};
use crate::records::{ContentRecord, ToolResultEventRecord, TurnRecord, UserTurnRecord};
use crate::sessions;
use vstd::prelude::*;

verus! {

/// The tokens of the results of the rows.
pub open spec fn tokens_of(rows: Seq<ToolRow>) -> int {
    rows.fold_left(0int, |n: int, r: ToolRow| n + r.result_tokens)
}

/// The tokens of those results that fit into a cache of `cache_read` tokens.
pub open spec fn cached_tokens_of(rows: Seq<ToolRow>, cache_read: int) -> int {
    rows.fold_left(
        0int,
        |n: int, r: ToolRow|
            n + if r.result_tokens <= cache_read {
                r.result_tokens as int
            } else {
                0
            },
    )
}

/// The position of the first row of the `k`th turn: the turns before it made as
/// many calls.
pub open spec fn first_row(turns: Seq<TurnRecord>, members: Seq<usize>, k: int) -> int
    decreases k,
{
    if k <= 0 {
        0
    } else {
        first_row(turns, members, k - 1) + turns[members[k - 1] as int].tool_calls@.len()
    }
}

proof fn lemma_first_row(turns: Seq<TurnRecord>, members: Seq<usize>, k: int)
    requires
        0 <= k <= members.len(),
    ensures
        first_row(turns, members, k) == sessions::calls_of(turns, members.take(k)).len(),
        forall|j: int|
            #![trigger sessions::calls_of(turns, members.take(k))[j]]
            k > 0 && first_row(turns, members, k - 1) <= j < first_row(turns, members, k)
                ==> sessions::calls_of(turns, members.take(k))[j] == (
                members[k - 1] as int,
                j - first_row(turns, members, k - 1),
            ),
    decreases k,
{
    if k > 0 {
        lemma_first_row(turns, members, k - 1);
        assert(members.take(k).drop_last() =~= members.take(k - 1));
        assert(members.take(k).last() == members[k - 1]);
    } else {
        assert(members.take(0) =~= Seq::<usize>::empty());
    }
}

proof fn lemma_first_row_grows(turns: Seq<TurnRecord>, members: Seq<usize>, a: int, b: int)
    requires
        0 <= a <= b,
    ensures
        0 <= first_row(turns, members, a) <= first_row(turns, members, b),
    decreases b,
{
    if a < b {
        lemma_first_row_grows(turns, members, a, b - 1);
    } else if b > 0 {
        lemma_first_row_grows(turns, members, a - 1, b - 1);
    }
}

proof fn lemma_calls_kept(turns: Seq<TurnRecord>, members: Seq<usize>, k: int, m: int, i: int)
    requires
        0 <= k <= m <= members.len(),
        0 <= i < first_row(turns, members, k),
    ensures
        sessions::calls_of(turns, members.take(m)).len() > i,
        sessions::calls_of(turns, members.take(m))[i] == sessions::calls_of(
            turns,
            members.take(k),
        )[i],
    decreases m,
{
    lemma_first_row(turns, members, k);
    if k < m {
        lemma_calls_kept(turns, members, k, m - 1, i);
        assert(members.take(m).drop_last() =~= members.take(m - 1));
    }
}

/// The books after the first `m` turns.
spec fn books(
    turns: Seq<TurnRecord>,
    members: Seq<usize>,
    sized: bool,
    priced: Seq<bool>,
    users: Seq<UserTurnRecord>,
    content: Seq<ContentRecord>,
    m: int,
) -> Ledger {
    hotspots::settled(turns, members.take(m), sized, priced, users, content)
}

proof fn lemma_books(
    turns: Seq<TurnRecord>,
    members: Seq<usize>,
    sized: bool,
    priced: Seq<bool>,
    users: Seq<UserTurnRecord>,
    content: Seq<ContentRecord>,
    m: int,
)
    requires
        0 <= m <= members.len(),
    ensures
        books(turns, members, sized, priced, users, content, m).rows.len() == first_row(
            turns,
            members,
            m,
        ),
        m > 0 ==> books(turns, members, sized, priced, users, content, m).pending == first_row(
            turns,
            members,
            m - 1,
        ),
        m > 0 ==> books(turns, members, sized, priced, users, content, m) == hotspots::pay_turn(
            books(turns, members, sized, priced, users, content, m - 1),
            turns[members[m - 1] as int],
            members[m - 1] as int,
            sized,
            priced[members[m - 1] as int],
            users,
            content,
        ),
        m == 0 ==> books(turns, members, sized, priced, users, content, m).pending == 0,
    decreases m,
{
    if m > 0 {
        lemma_books(turns, members, sized, priced, users, content, m - 1);
        assert(members.take(m).drop_last() =~= members.take(m - 1));
        assert(members.take(m).last() == members[m - 1]);
    } else {
        assert(members.take(0) =~= Seq::<usize>::empty());
    }
}

/// What a row weighs never changes, nor does its first share once the next
/// turn is through.
proof fn lemma_books_keep(
    turns: Seq<TurnRecord>,
    members: Seq<usize>,
    sized: bool,
    priced: Seq<bool>,
    users: Seq<UserTurnRecord>,
    content: Seq<ContentRecord>,
    k: int,
    m: int,
    i: int,
)
    requires
        0 <= k < m <= members.len(),
        0 <= i < first_row(turns, members, k),
    ensures
        ({
            let a = books(turns, members, sized, priced, users, content, k);
            let b = books(turns, members, sized, priced, users, content, m);
            &&& 0 <= i < a.rows.len() <= b.rows.len()
            &&& b.rows[i].weight == a.rows[i].weight
            &&& i < first_row(turns, members, k - 1) ==> b.rows[i].initial == a.rows[i].initial
        }),
    decreases m,
{
    lemma_books(turns, members, sized, priced, users, content, k);
    lemma_books(turns, members, sized, priced, users, content, m);
    lemma_books(turns, members, sized, priced, users, content, m - 1);
    lemma_first_row_grows(turns, members, k, m);
    lemma_first_row_grows(turns, members, k, m - 1);
    if k > 0 {
        lemma_first_row_grows(turns, members, k - 1, m - 1);
        lemma_first_row_grows(turns, members, k - 1, m - 2 + if m == 1 { 1int } else { 0 });
    }
    if k < m - 1 {
        lemma_books_keep(turns, members, sized, priced, users, content, k, m - 1, i);
        lemma_first_row_grows(turns, members, k - 1 + if k == 0 { 1int } else { 0 }, m - 2);
    }
}

proof fn lemma_weights_add_up(rows: Seq<RowShares>, given: Seq<ToolRow>, lo: int, hi: int)
    requires
        0 <= lo <= hi <= rows.len(),
        hi <= given.len(),
        forall|i: int| lo <= i < hi ==> (#[trigger] rows[i]).weight == given[i].result_tokens,
    ensures
        hotspots::weight_sum(rows, lo, hi) == tokens_of(given.subrange(lo, hi)),
    decreases hi - lo,
{
    if lo < hi {
        lemma_weights_add_up(rows, given, lo, hi - 1);
        assert(given.subrange(lo, hi).drop_last() =~= given.subrange(lo, hi - 1));
    }
}

proof fn lemma_tokens_not_negative(rows: Seq<ToolRow>)
    ensures
        tokens_of(rows) >= 0,
    decreases rows.len(),
{
    if rows.len() > 0 {
        lemma_tokens_not_negative(rows.drop_last());
    }
}

proof fn lemma_cached_add_up(rows: Seq<RowShares>, given: Seq<ToolRow>, read: int, hi: int)
    requires
        0 <= hi <= rows.len(),
        hi <= given.len(),
        forall|i: int| 0 <= i < hi ==> (#[trigger] rows[i]).weight == given[i].result_tokens,
    ensures
        hotspots::cached_sum(rows, read, hi) == cached_tokens_of(given.take(hi), read),
    decreases hi,
{
    if hi > 0 {
        lemma_cached_add_up(rows, given, read, hi - 1);
        assert(given.take(hi).drop_last() =~= given.take(hi - 1));
    }
}

/// The first payment for a tool result. The turn after the one that made the
/// calls pays for their results, with its uncached input and with what it puts
/// into its cache under either lifetime. Where these three together reach the
/// size of the results, the results are paid in full; where they do not, all
/// three go to the results. A result takes part by its size, or evenly where
/// no size is known. Nothing is charged if and only if there is no next turn
/// with a rate, or all three counts are 0, or sizes are known and all of them
/// are 0.
pub proof fn lemma_first_payment(
    s: SessionAttribution,
    turns: Seq<TurnRecord>,
    priced: Seq<bool>,
    content: Seq<BySession<ContentRecord>>,
    users: Seq<BySession<UserTurnRecord>>,
    events: Seq<BySession<ToolResultEventRecord>>,
    k: int,
    j: int,
)
    requires
        hotspots::session_shared(s, turns, priced, content, users, events),
        0 <= k < s.turns@.len(),
        0 <= j < turns[s.turns@[k] as int].tool_calls@.len(),
    ensures
        ({
            let n = turns[s.turns@[k] as int].tool_calls@.len() as int;
            let at = first_row(turns, s.turns@, k);
            let row = s.rows@[at + j];
            let whole = tokens_of(s.rows@.subrange(at, at + n));
            let sized = s.method == AttributionMethod::Sized;
            let next = s.turns@[k + 1];
            let u = turns[next as int].usage;
            let pays = k + 1 < s.turns@.len() && priced[next as int] && !(u.input == 0
                && u.cache_create_5m == 0 && u.cache_create_1h == 0) && !(sized && whole == 0);
            &&& 0 <= at && at + n <= s.rows@.len()
            &&& row.tool_use_id@ == turns[s.turns@[k] as int].tool_calls@[j].id@
            &&& row.initial is None <==> !pays
            &&& row.initial matches Some(x) ==> x.turn == next
            &&& row.initial matches Some(x) ==> sized ==> x.weight == row.result_tokens && x.total
                == whole
            &&& row.initial matches Some(x) ==> sized && u.input + u.cache_create_5m
                + u.cache_create_1h >= whole ==> x.pool == whole
            &&& row.initial matches Some(x) ==> sized && u.input + u.cache_create_5m
                + u.cache_create_1h < whole ==> x.pool == u.input + u.cache_create_5m
                + u.cache_create_1h
            &&& row.initial matches Some(x) ==> !sized ==> x.weight == 1 && x.total == n && x.pool
                == u.input + u.cache_create_5m + u.cache_create_1h
        }),
{
    let ms = s.turns@;
    let c = hotspots::records_of(content, s.session_id@);
    let us = hotspots::records_of(users, s.session_id@);
    let sized = s.method == AttributionMethod::Sized;
    let n = turns[ms[k] as int].tool_calls@.len() as int;
    let at = first_row(turns, ms, k);
    let i = at + j;
    let last = ms.len() as int;
    let row = s.rows@[i];
    assert(ms.take(last) =~= ms);
    lemma_first_row(turns, ms, k + 1);
    lemma_first_row(turns, ms, last);
    lemma_first_row_grows(turns, ms, 0, k);
    lemma_first_row_grows(turns, ms, k + 1, last);
    lemma_calls_kept(turns, ms, k + 1, last, i);
    let shares = s.rows@.map_values(|row: ToolRow| hotspots::shares_of(row));
    let all = books(turns, ms, sized, priced, us, c, last);
    assert(shares == all.rows);
    assert(shares[i] == hotspots::shares_of(row));
    let calls = sessions::calls_of(turns, ms);
    assert(calls[i] == sessions::calls_of(turns, ms.take(k + 1))[i]);
    assert(calls[i] == (ms[k] as int, j));
    let made = books(turns, ms, sized, priced, us, c, k + 1);
    lemma_books(turns, ms, sized, priced, us, c, k);
    lemma_books(turns, ms, sized, priced, us, c, k + 1);
    assert(made.rows[i].initial is None);
    if k + 1 == last {
        assert(made == all);
    } else {
        let t = turns[ms[k + 1] as int];
        let u = t.usage;
        let paid = books(turns, ms, sized, priced, us, c, k + 2);
        lemma_books(turns, ms, sized, priced, us, c, k + 2);
        lemma_first_row_grows(turns, ms, k + 1, k + 2);
        assert(paid.rows[i] == hotspots::paid_row(made, i, sized, priced[ms[k + 1] as int], ms[k + 1] as int, u));
        if k + 2 < last {
            lemma_books_keep(turns, ms, sized, priced, us, c, k + 2, last, i);
        }
        assert(all.rows[i].initial == paid.rows[i].initial);
        assert forall|r: int| at <= r < at + n implies (#[trigger] made.rows[r]).weight
            == s.rows@[r].result_tokens by {
            lemma_books_keep(turns, ms, sized, priced, us, c, k + 1, last, r);
            assert(shares[r] == hotspots::shares_of(s.rows@[r]));
        }
        lemma_weights_add_up(made.rows, s.rows@, at, at + n);
        lemma_tokens_not_negative(s.rows@.subrange(at, at + n));
    }
}

/// The later payments for a tool result, where sizes are known. Beginning with
/// the second turn after the call, every turn with a rate that reads at least
/// as much from its cache as the result is long pays for it once more. The
/// results that ride along then share what the turn read, or what they weigh
/// together where that is less. There are no other payments.
pub proof fn lemma_ride_payments(
    s: SessionAttribution,
    turns: Seq<TurnRecord>,
    priced: Seq<bool>,
    content: Seq<BySession<ContentRecord>>,
    users: Seq<BySession<UserTurnRecord>>,
    events: Seq<BySession<ToolResultEventRecord>>,
    k: int,
    j: int,
)
    requires
        hotspots::session_shared(s, turns, priced, content, users, events),
        0 <= k < s.turns@.len(),
        0 <= j < turns[s.turns@[k] as int].tool_calls@.len(),
    ensures
        ({
            let row = s.rows@[first_row(turns, s.turns@, k) + j];
            let rides = hotspots::share_views(row.rides@);
            let n = s.turns@.len() as int;
            &&& forall|m: int| #[trigger]
                rides_in(s, turns, priced, k, row, m, n) ==> has_ride(rides, row, s, turns, m)
            &&& forall|q: int|
                0 <= q < row.rides@.len() ==> is_due(
                    #[trigger] rides[q],
                    row,
                    s,
                    turns,
                    priced,
                    k,
                    n,
                )
        }),
{
    let ms = s.turns@;
    let c = hotspots::records_of(content, s.session_id@);
    let us = hotspots::records_of(users, s.session_id@);
    let sized = s.method == AttributionMethod::Sized;
    let i = first_row(turns, ms, k) + j;
    let last = ms.len() as int;
    assert(ms.take(last) =~= ms);
    lemma_first_row_grows(turns, ms, 0, k);
    lemma_first_row_grows(turns, ms, k + 1, last);
    let shares = s.rows@.map_values(|row: ToolRow| hotspots::shares_of(row));
    let all = books(turns, ms, sized, priced, us, c, last);
    lemma_books(turns, ms, sized, priced, us, c, last);
    assert(shares == all.rows);
    assert(shares[i] == hotspots::shares_of(s.rows@[i]));
    lemma_rides_so_far(s, turns, priced, content, users, events, k, j, last);
    let rides = hotspots::share_views(s.rows@[i].rides@);
    assert(rides == all.rows[i].rides);
    assert(rides.len() == s.rows@[i].rides@.len());
}

/// Whether the row of the `k`th turn rides along in the `m`th, one of the first
/// `hi`.
pub open spec fn rides_in(
    s: SessionAttribution,
    turns: Seq<TurnRecord>,
    priced: Seq<bool>,
    k: int,
    row: ToolRow,
    m: int,
    hi: int,
) -> bool {
    k + 2 <= m < hi && s.method == AttributionMethod::Sized && priced[s.turns@[m] as int]
        && row.result_tokens > 0 && turns[s.turns@[m] as int].usage.cache_read
        >= row.result_tokens
}

/// Whether the share is what the row has in the `m`th turn of the session.
pub open spec fn is_ride(
    x: ShareView,
    row: ToolRow,
    s: SessionAttribution,
    turns: Seq<TurnRecord>,
    m: int,
) -> bool {
    let read = turns[s.turns@[m] as int].usage.cache_read;
    let total = cached_tokens_of(
        s.rows@.take(first_row(turns, s.turns@, m - 1)),
        read as int,
    );
    &&& x.turn == s.turns@[m]
    &&& x.weight == row.result_tokens
    &&& x.total == total
    &&& x.pool == read || x.pool == total
    &&& x.pool <= read && x.pool <= total
}

/// Whether the row has a share in the `m`th turn.
pub open spec fn has_ride(
    v: Seq<ShareView>,
    row: ToolRow,
    s: SessionAttribution,
    turns: Seq<TurnRecord>,
    m: int,
) -> bool {
    exists|q: int| 0 <= q < v.len() && is_ride(#[trigger] v[q], row, s, turns, m)
}

/// Whether the share is one in a turn in which the row rides along.
pub open spec fn is_due(
    x: ShareView,
    row: ToolRow,
    s: SessionAttribution,
    turns: Seq<TurnRecord>,
    priced: Seq<bool>,
    k: int,
    hi: int,
) -> bool {
    exists|m: int| #[trigger]
        rides_in(s, turns, priced, k, row, m, hi) && is_ride(x, row, s, turns, m)
}

proof fn lemma_rides_so_far(
    s: SessionAttribution,
    turns: Seq<TurnRecord>,
    priced: Seq<bool>,
    content: Seq<BySession<ContentRecord>>,
    users: Seq<BySession<UserTurnRecord>>,
    events: Seq<BySession<ToolResultEventRecord>>,
    k: int,
    j: int,
    hi: int,
)
    requires
        hotspots::session_shared(s, turns, priced, content, users, events),
        0 <= k < hi <= s.turns@.len(),
        0 <= j < turns[s.turns@[k] as int].tool_calls@.len(),
    ensures
        ({
            let i = first_row(turns, s.turns@, k) + j;
            let row = s.rows@[i];
            let v = books(
                turns,
                s.turns@,
                s.method == AttributionMethod::Sized,
                priced,
                hotspots::records_of(users, s.session_id@),
                hotspots::records_of(content, s.session_id@),
                hi,
            ).rows[i].rides;
            &&& forall|m: int| #[trigger]
                rides_in(s, turns, priced, k, row, m, hi) ==> has_ride(v, row, s, turns, m)
            &&& forall|q: int|
                0 <= q < v.len() ==> is_due(#[trigger] v[q], row, s, turns, priced, k, hi)
        }),
    decreases hi,
{
    let ms = s.turns@;
    let c = hotspots::records_of(content, s.session_id@);
    let us = hotspots::records_of(users, s.session_id@);
    let sized = s.method == AttributionMethod::Sized;
    let i = first_row(turns, ms, k) + j;
    let row = s.rows@[i];
    let last = ms.len() as int;
    let b = books(turns, ms, sized, priced, us, c, hi);
    let bv = b.rows[i].rides;
    lemma_books(turns, ms, sized, priced, us, c, hi);
    lemma_books(turns, ms, sized, priced, us, c, hi - 1);
    lemma_first_row_grows(turns, ms, 0, k);
    if hi == k + 1 {
        assert(bv =~= Seq::<ShareView>::empty());
    } else {
        let a = books(turns, ms, sized, priced, us, c, hi - 1);
        let av = a.rows[i].rides;
        let m = hi - 1;
        let t = turns[ms[m] as int];
        lemma_rides_so_far(s, turns, priced, content, users, events, k, j, hi - 1);
        lemma_first_row_grows(turns, ms, k + 1, hi - 1);
        lemma_first_row_grows(turns, ms, hi - 1, last);
        assert(b.rows[i] == hotspots::paid_row(
            a,
            i,
            sized,
            priced[ms[m] as int],
            ms[m] as int,
            t.usage,
        ));
        if hi == k + 2 {
            assert(bv == av);
            if av.len() > 0 {
                assert(is_due(av[0], row, s, turns, priced, k, hi - 1));
            }
        } else {
            lemma_ride_step(s, turns, priced, content, users, events, i, hi - 1);
            lemma_first_row_grows(turns, ms, k + 1, hi - 2);
            let new = hotspots::ride_share(a, i, ms[m] as int, t.usage);
            let now = rides_in(s, turns, priced, k, row, m, hi);
            assert(bv == if now {
                av.push(new)
            } else {
                av
            });
            assert forall|x: int| #[trigger]
                rides_in(s, turns, priced, k, row, x, hi) implies has_ride(bv, row, s, turns, x) by {
                if x < m {
                    assert(rides_in(s, turns, priced, k, row, x, hi - 1));
                    let q = choose|q: int|
                        0 <= q < av.len() && is_ride(#[trigger] av[q], row, s, turns, x);
                    assert(bv[q] == av[q]);
                } else {
                    assert(is_ride(bv[av.len() as int], row, s, turns, x));
                }
            }
            assert forall|q: int| 0 <= q < bv.len() implies is_due(
                #[trigger] bv[q],
                row,
                s,
                turns,
                priced,
                k,
                hi,
            ) by {
                if q < av.len() {
                    assert(bv[q] == av[q]);
                    assert(is_due(av[q], row, s, turns, priced, k, hi - 1));
                    let x = choose|x: int| #[trigger]
                        rides_in(s, turns, priced, k, row, x, hi - 1) && is_ride(
                            av[q],
                            row,
                            s,
                            turns,
                            x,
                        );
                    assert(rides_in(s, turns, priced, k, row, x, hi));
                }
            }
        }
    }
}

proof fn lemma_ride_step(
    s: SessionAttribution,
    turns: Seq<TurnRecord>,
    priced: Seq<bool>,
    content: Seq<BySession<ContentRecord>>,
    users: Seq<BySession<UserTurnRecord>>,
    events: Seq<BySession<ToolResultEventRecord>>,
    i: int,
    m: int,
)
    requires
        hotspots::session_shared(s, turns, priced, content, users, events),
        1 <= m < s.turns@.len(),
        0 <= i < first_row(turns, s.turns@, m),
    ensures
        ({
            let a = books(
                turns,
                s.turns@,
                s.method == AttributionMethod::Sized,
                priced,
                hotspots::records_of(users, s.session_id@),
                hotspots::records_of(content, s.session_id@),
                m,
            );
            let at = s.turns@[m] as int;
            &&& a.rows[i].weight == s.rows@[i].result_tokens
            &&& is_ride(
                hotspots::ride_share(a, i, at, turns[at].usage),
                s.rows@[i],
                s,
                turns,
                m,
            )
        }),
{
    let ms = s.turns@;
    let c = hotspots::records_of(content, s.session_id@);
    let us = hotspots::records_of(users, s.session_id@);
    let sized = s.method == AttributionMethod::Sized;
    let last = ms.len() as int;
    let a = books(turns, ms, sized, priced, us, c, m);
    let shares = s.rows@.map_values(|row: ToolRow| hotspots::shares_of(row));
    let all = books(turns, ms, sized, priced, us, c, last);
    assert(ms.take(last) =~= ms);
    lemma_books(turns, ms, sized, priced, us, c, last);
    lemma_books(turns, ms, sized, priced, us, c, m);
    lemma_first_row_grows(turns, ms, m, last);
    lemma_first_row_grows(turns, ms, m - 1, m);
    assert(shares == all.rows);
    assert forall|r: int| 0 <= r < first_row(turns, ms, m) implies (#[trigger] a.rows[r]).weight
        == s.rows@[r].result_tokens by {
        lemma_books_keep(turns, ms, sized, priced, us, c, m, last, r);
        assert(shares[r] == hotspots::shares_of(s.rows@[r]));
    }
    lemma_cached_add_up(
        a.rows,
        s.rows@,
        turns[ms[m] as int].usage.cache_read as int,
        a.pending,
    );
}

} // verus!
