//! Lists in the order of their rank.

use crate::context_delta;
use crate::context_delta::ContextDeltaOpts;
use crate::laws;
use crate::order;
use crate::outside;
use crate::provider;
use crate::provider::{AsTurnLike, RuleView};
use crate::rollups;
use crate::streaks;
use crate::text;
use vstd::prelude::*;

verus! {

/// Every place has its rank: those with the larger keys first, those with equal
/// keys by name, and else as they stand.
pub proof fn lemma_ranks(keys: Seq<i64>, names: Seq<Seq<char>>)
    requires
        keys.len() <= usize::MAX,
    ensures
        ({
            let r = order::ranked(keys, names);
            &&& r.len() == keys.len()
            &&& forall|i: int| 0 <= i < keys.len() ==> r.contains(#[trigger] (i as usize))
            &&& forall|i: int, j: int|
                #![trigger r[i], r[j]]
                0 <= i < j < r.len() ==> {
                    let a = r[i] as int;
                    let b = r[j] as int;
                    ||| keys[a] > keys[b]
                    ||| keys[a] == keys[b] && text::str_lt(names[a], names[b])
                    ||| keys[a] == keys[b] && names[a] == names[b] && a < b
                }
        }),
{
    let all = order::positions_up_to(keys.len());
    let lt = order::ranks_before(keys, names);
    assert forall|a: usize| !#[trigger] lt(a, a) by {
        let x = names[a as int];
        text::lemma_str_lt(x, x, x);
    }
    assert forall|a: usize, b: usize, c: usize| #[trigger] lt(a, b) && #[trigger] lt(
        b,
        c,
    ) implies lt(a, c) by {
        text::lemma_str_lt(names[a as int], names[b as int], names[c as int]);
    }
    assert forall|a: usize, b: usize, c: usize| #[trigger] lt(a, c) implies lt(a, b)
        || #[trigger] lt(b, c) by {
        text::lemma_str_lt(names[a as int], names[b as int], names[c as int]);
        text::lemma_str_lt(names[b as int], names[a as int], names[c as int]);
    }
    laws::sessions::lemma_sorted_positions(all, lt);
    let r = order::ranked(keys, names);
    assert forall|i: int| 0 <= i < keys.len() implies r.contains(#[trigger] (i as usize)) by {
        assert(all[i] == i as usize);
        assert(all.contains(i as usize));
    }
    assert forall|i: int, j: int| #![trigger r[i], r[j]] 0 <= i < j < r.len() implies {
        let a = r[i] as int;
        let b = r[j] as int;
        ||| keys[a] > keys[b]
        ||| keys[a] == keys[b] && text::str_lt(names[a], names[b])
        ||| keys[a] == keys[b] && names[a] == names[b] && a < b
    } by {
        let a = r[i];
        let b = r[j];
        assert(lt(a, b) || (!lt(b, a) && a < b));
        text::lemma_str_lt(names[a as int], names[b as int], names[a as int]);
    }
}

/// The rows of a ranked list are those of the list, in the order of their
/// ranks; where there are no names, rows with equal keys stay as they stand.
pub proof fn lemma_in_rank<T>(rows: Seq<T>, keys: Seq<i64>)
    requires
        keys.len() == rows.len(),
        keys.len() <= usize::MAX,
    ensures
        ({
            let r = order::ranked(keys, order::unnamed(rows.len()));
            let out = order::in_rank(rows, keys, order::unnamed(rows.len()));
            &&& out.len() == rows.len()
            &&& forall|i: int| 0 <= i < out.len() ==> #[trigger] out[i] == rows[r[i] as int]
            &&& forall|i: int, j: int|
                #![trigger r[i], r[j]]
                0 <= i < j < r.len() ==> keys[r[i] as int] > keys[r[j] as int] || (
                keys[r[i] as int] == keys[r[j] as int] && r[i] < r[j])
        }),
{
    let names = order::unnamed(rows.len());
    lemma_ranks(keys, names);
    let r = order::ranked(keys, names);
    order::lemma_sort_inside(order::positions_up_to(keys.len()), order::ranks_before(keys, names));
    assert forall|i: int, j: int| #![trigger r[i], r[j]] 0 <= i < j < r.len() implies keys[r[i] as int]
        > keys[r[j] as int] || (keys[r[i] as int] == keys[r[j] as int] && r[i] < r[j]) by {
        assert(order::positions_up_to(keys.len()).contains(r[i]));
        assert(order::positions_up_to(keys.len()).contains(r[j]));
        let a = names[r[i] as int];
        let b = names[r[j] as int];
        assert(a =~= b);
        text::lemma_str_lt(a, a, a);
    }
}

/// The first rows of a list are as many as are asked for, or all there are.
pub proof fn lemma_first_of<T>(s: Seq<T>, n: int)
    requires
        n >= 0,
    ensures
        context_delta::first_of(s, n).len() == n || (context_delta::first_of(s, n).len() == s.len()
            && s.len() < n),
        forall|i: int|
            0 <= i < context_delta::first_of(s, n).len() ==> #[trigger] context_delta::first_of(
                s,
                n,
            )[i] == s[i],
{
}

/// A filter by provider keeps the turns whose provider is one of the names,
/// with no regard to its case.
pub proof fn lemma_provider_filter<T: AsTurnLike>(
    turns: Seq<T>,
    names: Seq<String>,
    rules: Seq<RuleView>,
)
    ensures
        streaks::pick(turns, |t: T| provider::is_served_by(t, text::views(names), rules))
            == turns.filter(
            |t: T|
                exists|k: int|
                    0 <= k < names.len() && (#[trigger] names[k])@ == outside::lowercase(
                        provider::provider_of(
                            t.model_view(),
                            Some(t.source_view()),
                            rules,
                        ).provider,
                    ),
        ),
{
    let p = |t: T| provider::is_served_by(t, text::views(names), rules);
    let q = |t: T|
        exists|k: int|
            0 <= k < names.len() && (#[trigger] names[k])@ == outside::lowercase(
                provider::provider_of(t.model_view(), Some(t.source_view()), rules).provider,
            );
    let v = text::views(names);
    assert forall|i: int| 0 <= i < turns.len() implies p(#[trigger] turns[i]) == q(turns[i]) by {
        let t = turns[i];
        let x = outside::lowercase(
            provider::provider_of(t.model_view(), Some(t.source_view()), rules).provider,
        );
        if p(t) {
            let k = choose|k: int| 0 <= k < v.len() && v[k] == x;
            assert(names[k]@ == x);
        }
        if q(t) {
            let k = choose|k: int| 0 <= k < names.len() && (#[trigger] names[k])@ == x;
            assert(v[k] == x);
        }
    }
    laws::edits::lemma_pick_is_filter(turns, p, q);
}

/// A verb is shown with three of its commands, and a server with three of its
/// tools, or with all where there are no more.
pub proof fn lemma_top_examples<T>(s: Seq<T>)
    ensures
        context_delta::first_of(s, rollups::TOP_EXAMPLES as int).len() == if s.len() < 3 {
            s.len()
        } else {
            3
        },
{
}

/// Where nothing else is asked for, the twenty rows with the largest growth are
/// kept, of those that grow by a thousand tokens, from the last day.
pub proof fn lemma_delta_defaults(opts: ContextDeltaOpts)
    ensures
        opts.rows_kept() == if opts.top is Some {
            opts.top->Some_0
        } else {
            20
        },
        opts.floor() == if opts.min_delta is Some {
            opts.min_delta->Some_0
        } else {
            1000
        },
        context_delta::DEFAULT_SINCE_SECS == 24 * 60 * 60,
{
}

} // verus!
