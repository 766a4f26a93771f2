//! Models side by side.

use crate::compare;
use crate::compare::{CompareCell, CompareOptions};
use crate::groups;
use crate::laws;
use crate::order;
use crate::records::TurnRecord;
use crate::streaks;
use crate::text;
use vstd::prelude::*;

verus! {

/// Whether the turn is of the model; one without a model counts as unknown.
pub open spec fn by_model(t: TurnRecord, model: Seq<char>) -> bool {
    if t.model@ == Seq::<char>::empty() {
        model == "unknown"@
    } else {
        model == t.model@
    }
}

/// Whether the turn is of the activity; one without counts as unclassified.
pub open spec fn by_activity(t: TurnRecord, activity: Seq<char>) -> bool {
    match t.activity {
        Some(a) => activity == a@,
        None => activity == "unclassified"@,
    }
}

/// Whether the model is one to look at: any where none is named.
pub open spec fn asked_for(opts: CompareOptions, model: Seq<char>) -> bool {
    match opts.models {
        Some(v) => v@.len() == 0 || exists|i: int| 0 <= i < v@.len() && (#[trigger] v@[i])@ == model,
        None => true,
    }
}

/// The turns of the model and the activity, in order.
pub open spec fn turns_of(
    turns: Seq<TurnRecord>,
    opts: CompareOptions,
    model: Seq<char>,
    activity: Seq<char>,
) -> Seq<usize> {
    Seq::new(turns.len(), |i: int| i as usize).filter(
        |i: usize|
            asked_for(opts, model) && by_model(turns[i as int], model) && by_activity(
                turns[i as int],
                activity,
            ),
    )
}

proof fn lemma_filter_twice<T>(
    s: Seq<T>,
    p: spec_fn(T) -> bool,
    q: spec_fn(T) -> bool,
    both: spec_fn(T) -> bool,
)
    requires
        forall|x: T| #[trigger] both(x) == (p(x) && q(x)),
    ensures
        streaks::pick(streaks::pick(s, p), q) == streaks::pick(s, both),
    decreases s.len(),
{
    if s.len() > 0 {
        let d = s.drop_last();
        let x = s.last();
        lemma_filter_twice(d, p, q, both);
        assert(both(x) == (p(x) && q(x)));
        if p(x) {
            let inner = streaks::pick(s, p);
            assert(inner == streaks::pick(d, p).push(x));
            assert(inner.drop_last() =~= streaks::pick(d, p));
            assert(inner.last() == x);
        }
    }
}

proof fn lemma_cell_turns(
    turns: Seq<TurnRecord>,
    opts: CompareOptions,
    model: Seq<char>,
    activity: Seq<char>,
)
    requires
        turns.len() <= usize::MAX,
    ensures
        compare::of_category(
            turns,
            compare::of_model(turns, compare::kept_turns(turns, opts.wanted()), model),
            activity,
        ) == turns_of(turns, opts, model, activity),
{
    let all = order::positions_up_to(turns.len());
    let wanted = opts.wanted();
    let p = |i: usize| compare::is_wanted(compare::model_of(turns[i as int]), wanted);
    let q = |i: usize| compare::model_of(turns[i as int]) == model;
    let c = |i: usize| compare::category_of(turns[i as int]) == activity;
    let pq = |i: usize| p(i) && q(i);
    let whole = |i: usize| pq(i) && c(i);
    lemma_filter_twice(all, p, q, pq);
    lemma_filter_twice(all, pq, c, whole);
    let goal = |i: usize|
        asked_for(opts, model) && by_model(turns[i as int], model) && by_activity(
            turns[i as int],
            activity,
        );
    assert forall|k: int| 0 <= k < all.len() implies whole(#[trigger] all[k]) == goal(all[k]) by {
        let t = turns[all[k] as int];
        if t.model@.len() == 0 {
            assert(t.model@ =~= Seq::<char>::empty());
        }
        assert(compare::is_wanted(model, wanted) == asked_for(opts, model)) by {
            match opts.models {
                Some(v) => {
                    if v@.len() > 0 {
                        let names = text::views(v@);
                        if names.contains(model) {
                            let i = choose|i: int| 0 <= i < names.len() && names[i] == model;
                            assert(v@[i]@ == model);
                        }
                        if asked_for(opts, model) {
                            let i = choose|i: int|
                                0 <= i < v@.len() && (#[trigger] v@[i])@ == model;
                            assert(names[i] == model);
                        }
                    }
                },
                None => {},
            }
        }
    }
    laws::edits::lemma_pick_is_filter(all, whole, goal);
}

/// The retries of a turn, 0 where none are known.
pub open spec fn retried(t: TurnRecord) -> u64 {
    match t.retries {
        Some(n) => n,
        None => 0,
    }
}

/// Whether the two numbers stand in the middle of the list: at the two places
/// nearest to its middle, once it is in order.
pub open spec fn in_middle(list: Seq<u64>, m: (u64, u64)) -> bool {
    exists|s: Seq<u64>| #[trigger]
        s.to_multiset() == list.to_multiset() && s.len() == list.len() && (forall|i: int, j: int|
            0 <= i < j < s.len() ==> #[trigger] s[i] <= #[trigger] s[j]) && m.0 == s[(s.len() - 1)
            / 2] && m.1 == s[s.len() as int / 2]
}

/// Whether the cell tells of the turns.
pub open spec fn tells_cell(
    c: CompareCell,
    turns: Seq<TurnRecord>,
    at: Seq<usize>,
    priced: Seq<bool>,
    least: int,
) -> bool {
    let edited = at.filter(|i: usize| turns[i as int].has_edits == Some(true));
    &&& c.turns == at.len()
    &&& c.edit_turns == edited.len()
    &&& c.one_shot_turns == at.filter(
        |i: usize| turns[i as int].has_edits == Some(true) && retried(turns[i as int]) == 0,
    ).len()
    &&& c.cost_turns@ == at.filter(|i: usize| priced[i as int])
    &&& c.priced_turns == c.cost_turns@.len()
    &&& c.usage.input == laws::provider::sum_of(turns, at, |t: TurnRecord| t.usage.input as int)
    &&& c.usage.output == laws::provider::sum_of(turns, at, |t: TurnRecord| t.usage.output as int)
    &&& c.usage.reasoning == laws::provider::sum_of(
        turns,
        at,
        |t: TurnRecord| t.usage.reasoning as int,
    )
    &&& c.usage.cache_read == laws::provider::sum_of(
        turns,
        at,
        |t: TurnRecord| t.usage.cache_read as int,
    )
    &&& c.usage.cache_create_5m == laws::provider::sum_of(
        turns,
        at,
        |t: TurnRecord| t.usage.cache_create_5m as int,
    )
    &&& c.usage.cache_create_1h == laws::provider::sum_of(
        turns,
        at,
        |t: TurnRecord| t.usage.cache_create_1h as int,
    )
    &&& c.has_input <==> c.usage.input + c.usage.cache_read + c.usage.cache_create_5m
        + c.usage.cache_create_1h > 0
    &&& c.median_retries is None <==> edited.len() == 0
    &&& c.median_retries matches Some(m) ==> in_middle(
        edited.map_values(|i: usize| retried(turns[i as int])),
        m,
    )
    &&& c.no_data <==> at.len() == 0
    &&& c.insufficient_sample <==> 0 < at.len() < least
}

proof fn lemma_tells_cell(
    c: CompareCell,
    turns: Seq<TurnRecord>,
    at: Seq<usize>,
    priced: Seq<bool>,
    least: u64,
)
    requires
        compare::is_cell(c, turns, at, priced, least),
    ensures
        tells_cell(c, turns, at, priced, least as int),
{
    laws::edits::lemma_pick_is_filter(
        at,
        |i: usize| compare::edits(turns[i as int]),
        |i: usize| turns[i as int].has_edits == Some(true),
    );
    laws::edits::lemma_pick_is_filter(
        at,
        |i: usize|
            compare::edits(turns[i as int]) && compare::retries(turns[i as int]) == 0,
        |i: usize| turns[i as int].has_edits == Some(true) && retried(turns[i as int]) == 0,
    );
    laws::edits::lemma_pick_is_filter(
        at,
        |i: usize| priced[i as int],
        |i: usize| priced[i as int],
    );
    laws::provider::lemma_usage(c.usage, turns, at);
    let edited = compare::edit_turns(turns, at);
    let list = edited.map_values(|i: usize| retried(turns[i as int]));
    let given = edited.map_values(|i: usize| compare::retries(turns[i as int]));
    assert(list =~= given);
    if edited.len() > 0 {
        let lt = |a: u64, b: u64| a < b;
        let s = order::stable_sort(given, lt);
        order::lemma_sort_multiset(given, lt);
        order::lemma_sort_in_order(given, lt);
        assert(s == compare::sorted_retries(turns, edited));
        assert forall|i: int, j: int| 0 <= i < j < s.len() implies #[trigger] s[i]
            <= #[trigger] s[j] by {
            assert(!lt(s[j], s[i]));
        }
        assert(s.to_multiset() == list.to_multiset());
        assert(in_middle(list, compare::middle(s)));
    }
}

/// What [`compare::build_compare_table`] puts into its cells.
pub open spec fn has_cells(
    r: compare::CompareTable,
    turns: Seq<TurnRecord>,
    priced: Seq<bool>,
    opts: CompareOptions,
) -> bool {
    let kept = compare::kept_turns(turns, opts.wanted());
    &&& text::views(r.categories@) == compare::category_names(turns, kept)
    &&& r.cells@.len() == r.models@.len()
    &&& r.totals@.len() == r.models@.len()
    &&& forall|i: int|
        0 <= i < r.models@.len() ==> compare::is_cell_row(
            (#[trigger] r.cells@[i])@,
            turns,
            compare::of_model(turns, kept, r.models@[i]@),
            compare::category_names(turns, kept),
            priced,
            opts.floor(),
        )
}

/// The cell of a model and an activity tells of exactly the turns of that model
/// and that activity. A sample counts as too small below five turns where no
/// other number was asked for.
pub proof fn lemma_cells(
    r: compare::CompareTable,
    turns: Seq<TurnRecord>,
    priced: Seq<bool>,
    opts: CompareOptions,
    i: int,
    j: int,
)
    requires
        turns.len() <= usize::MAX,
        has_cells(r, turns, priced, opts),
        0 <= i < r.models@.len(),
        0 <= j < r.categories@.len(),
    ensures
        j < r.cells@[i]@.len(),
        tells_cell(
            r.cells@[i]@[j],
            turns,
            turns_of(turns, opts, r.models@[i]@, r.categories@[j]@),
            priced,
            match opts.min_sample {
                Some(n) => n as int,
                None => 5,
            },
        ),
{
    let kept = compare::kept_turns(turns, opts.wanted());
    let names = compare::category_names(turns, kept);
    let row = r.cells@[i]@;
    assert(compare::is_cell_row(
        r.cells@[i]@,
        turns,
        compare::of_model(turns, kept, r.models@[i]@),
        names,
        priced,
        opts.floor(),
    ));
    assert(text::views(r.categories@)[j] == r.categories@[j]@);
    assert(names.len() == r.categories@.len());
    let at = compare::of_category(
        turns,
        compare::of_model(turns, kept, r.models@[i]@),
        names[j],
    );
    assert(compare::is_cell(row[j], turns, at, priced, opts.floor()));
    lemma_tells_cell(row[j], turns, at, priced, opts.floor());
    lemma_cell_turns(turns, opts, r.models@[i]@, r.categories@[j]@);
}

proof fn lemma_sorted_texts(s: Seq<Seq<char>>)
    requires
        s.no_duplicates(),
    ensures
        ({
            let r = order::stable_sort(s, order::text_order());
            &&& forall|x: Seq<char>| #[trigger] r.contains(x) <==> s.contains(x)
            &&& forall|i: int, j: int|
                #![trigger r[i], r[j]]
                0 <= i < j < r.len() ==> text::str_lt(r[i], r[j])
        }),
{
    let lt = order::text_order();
    let r = order::stable_sort(s, lt);
    assert forall|a: Seq<char>| !#[trigger] lt(a, a) by {
        text::lemma_str_lt(a, a, a);
    }
    assert forall|a: Seq<char>, b: Seq<char>, c: Seq<char>| #[trigger] lt(a, b) && #[trigger] lt(
        b,
        c,
    ) implies lt(a, c) by {
        text::lemma_str_lt(a, b, c);
    }
    assert forall|a: Seq<char>, b: Seq<char>, c: Seq<char>| #[trigger] lt(a, c) implies lt(a, b)
        || #[trigger] lt(b, c) by {
        text::lemma_str_lt(a, b, c);
        text::lemma_str_lt(b, a, c);
    }
    order::lemma_sort_in_order(s, lt);
    order::lemma_sort_multiset(s, lt);
    s.to_multiset_ensures();
    r.to_multiset_ensures();
    s.lemma_multiset_has_no_duplicates();
    r.lemma_multiset_has_no_duplicates_conv();
    assert forall|x: Seq<char>| #[trigger] r.contains(x) <==> s.contains(x) by {
        assert(r.to_multiset().count(x) == s.to_multiset().count(x));
    }
    assert forall|i: int, j: int| #![trigger r[i], r[j]] 0 <= i < j < r.len() implies text::str_lt(
        r[i],
        r[j],
    ) by {
        assert(!lt(r[j], r[i]));
        assert(r[i] != r[j]);
        text::lemma_str_lt(r[i], r[j], r[i]);
    }
}

proof fn lemma_by_model(t: TurnRecord, model: Seq<char>)
    ensures
        by_model(t, model) == (compare::model_of(t) == model),
{
    if t.model@.len() == 0 {
        assert(t.model@ =~= Seq::<char>::empty());
    }
}

proof fn lemma_asked_for(opts: CompareOptions, model: Seq<char>)
    ensures
        asked_for(opts, model) == compare::is_wanted(model, opts.wanted()),
{
    if opts.models is Some {
        let v = opts.models->Some_0@;
        let names = text::views(v);
        if names.contains(model) {
            let i = choose|i: int| 0 <= i < names.len() && names[i] == model;
            assert(v[i]@ == model);
        }
        if exists|i: int| 0 <= i < v.len() && (#[trigger] v[i])@ == model {
            let i = choose|i: int| 0 <= i < v.len() && (#[trigger] v[i])@ == model;
            assert(names[i] == model);
        }
    }
}

/// Whether some turn is of the model, and the model is one to look at.
pub open spec fn has_turns(turns: Seq<TurnRecord>, opts: CompareOptions, model: Seq<char>) -> bool {
    asked_for(opts, model) && exists|i: int|
        0 <= i < turns.len() && by_model(#[trigger] turns[i], model)
}

/// The table has a line for every model that is named or that some turn is of,
/// by name, and for no other.
pub proof fn lemma_models(turns: Seq<TurnRecord>, opts: CompareOptions, model: Seq<char>)
    requires
        turns.len() <= usize::MAX,
    ensures
        compare::model_names(turns, opts.wanted()).contains(model) <==> has_turns(
            turns,
            opts,
            model,
        ) || (opts.models is Some && exists|i: int|
            0 <= i < opts.models->Some_0@.len() && (#[trigger] opts.models->Some_0@[i])@ == model),
        forall|i: int, j: int|
            #![trigger compare::model_names(turns, opts.wanted())[i], compare::model_names(turns, opts.wanted())[j]]
            0 <= i < j < compare::model_names(turns, opts.wanted()).len() ==> text::str_lt(
                compare::model_names(turns, opts.wanted())[i],
                compare::model_names(turns, opts.wanted())[j],
            ),
{
    let wanted = opts.wanted();
    let kept = compare::kept_turns(turns, wanted);
    let all = order::positions_up_to(turns.len());
    let p = |i: usize| compare::is_wanted(compare::model_of(turns[i as int]), wanted);
    let of = compare::models_at(turns, kept);
    let named = match wanted {
        Some(names) => names,
        None => Seq::empty(),
    };
    let both = named + of;
    groups::lemma_first_seen(both);
    lemma_sorted_texts(groups::first_seen(both));
    lemma_asked_for(opts, model);
    if of.contains(model) {
        let k = choose|k: int| 0 <= k < of.len() && of[k] == model;
        assert(kept.contains(kept[k]));
        laws::streaks::lemma_pick_both(all, p, kept[k]);
        let x = choose|x: int| 0 <= x < all.len() && all[x] == kept[k];
        lemma_by_model(turns[kept[k] as int], model);
    }
    if has_turns(turns, opts, model) {
        let i = choose|i: int| 0 <= i < turns.len() && by_model(#[trigger] turns[i], model);
        assert(all[i] == i as usize);
        laws::streaks::lemma_pick_both(all, p, i as usize);
        lemma_by_model(turns[i], model);
        assert(kept.contains(i as usize));
        let k = choose|k: int| 0 <= k < kept.len() && kept[k] == i as usize;
        assert(of[k] == model);
        assert(of.contains(model));
    }
    assert(both.contains(model) <==> named.contains(model) || of.contains(model)) by {
        if both.contains(model) {
            let k = choose|k: int| 0 <= k < both.len() && both[k] == model;
            if k < named.len() {
                assert(named[k] == model);
            } else {
                assert(of[k - named.len()] == model);
            }
        }
        if named.contains(model) {
            let k = choose|k: int| 0 <= k < named.len() && named[k] == model;
            assert(both[k] == model);
        }
        if of.contains(model) {
            let k = choose|k: int| 0 <= k < of.len() && of[k] == model;
            assert(both[named.len() + k] == model);
        }
    }
    if opts.models is Some {
        let v = opts.models->Some_0@;
        if named.contains(model) {
            let k = choose|k: int| 0 <= k < named.len() && named[k] == model;
            assert(v[k]@ == model);
        }
        if exists|i: int| 0 <= i < v.len() && (#[trigger] v[i])@ == model {
            let i = choose|i: int| 0 <= i < v.len() && (#[trigger] v[i])@ == model;
            assert(named[i] == model);
        }
    }
}

/// How many of the turns are of the activity.
pub open spec fn count_of(turns: Seq<TurnRecord>, at: Seq<usize>, activity: Seq<char>) -> nat {
    at.filter(|i: usize| by_activity(turns[i as int], activity)).len()
}

proof fn lemma_count_of(turns: Seq<TurnRecord>, at: Seq<usize>, activity: Seq<char>)
    ensures
        compare::of_category(turns, at, activity).len() == count_of(turns, at, activity),
{
    laws::edits::lemma_pick_is_filter(
        at,
        |i: usize| compare::category_of(turns[i as int]) == activity,
        |i: usize| by_activity(turns[i as int], activity),
    );
}

proof fn lemma_counted_is_weak()
    ensures
        order::strict_weak(compare::category_order()),
{
    let lt = compare::category_order();
    assert forall|a: compare::Counted| !#[trigger] lt(a, a) by {
        text::lemma_str_lt(a.name, a.name, a.name);
    }
    assert forall|a: compare::Counted, b: compare::Counted, c: compare::Counted| #[trigger] lt(a, b)
        && #[trigger] lt(b, c) implies lt(a, c) by {
        text::lemma_str_lt(a.name, b.name, c.name);
    }
    assert forall|a: compare::Counted, b: compare::Counted, c: compare::Counted| #[trigger] lt(
        a,
        c,
    ) implies lt(a, b) || #[trigger] lt(b, c) by {
        text::lemma_str_lt(a.name, b.name, c.name);
        text::lemma_str_lt(b.name, a.name, c.name);
    }
}

/// The table has a column for every activity that some turn is of: that with
/// more turns first, and those with as many by name.
pub proof fn lemma_activities(turns: Seq<TurnRecord>, at: Seq<usize>, activity: Seq<char>)
    ensures
        compare::category_names(turns, at).contains(activity) <==> exists|k: int|
            0 <= k < at.len() && by_activity(turns[#[trigger] at[k] as int], activity),
        forall|i: int, j: int|
            #![trigger compare::category_names(turns, at)[i], compare::category_names(turns, at)[j]]
            0 <= i < j < compare::category_names(turns, at).len() ==> {
                let a = compare::category_names(turns, at)[i];
                let b = compare::category_names(turns, at)[j];
                count_of(turns, at, a) > count_of(turns, at, b) || (count_of(turns, at, a)
                    == count_of(turns, at, b) && !text::str_lt(b, a))
            },
{
    let of = compare::categories_at(turns, at);
    groups::lemma_first_seen(of);
    let firsts = groups::first_seen(of);
    let counted = compare::counted_categories(turns, at);
    let lt = compare::category_order();
    let sorted = order::stable_sort(counted, lt);
    let names = compare::category_names(turns, at);
    lemma_counted_is_weak();
    order::lemma_sort_in_order(counted, lt);
    order::lemma_sort_multiset(counted, lt);
    order::lemma_sort_inside(counted, lt);
    counted.to_multiset_ensures();
    sorted.to_multiset_ensures();
    if names.contains(activity) {
        let i = choose|i: int| 0 <= i < names.len() && names[i] == activity;
        assert(counted.contains(sorted[i]));
        let k = choose|k: int| 0 <= k < counted.len() && counted[k] == sorted[i];
        assert(firsts[k] == activity);
        assert(firsts.contains(activity));
        assert(of.contains(activity));
        let m = choose|m: int| 0 <= m < of.len() && of[m] == activity;
        assert(by_activity(turns[at[m] as int], activity));
    }
    if exists|k: int| 0 <= k < at.len() && by_activity(turns[#[trigger] at[k] as int], activity) {
        let k = choose|k: int|
            0 <= k < at.len() && by_activity(turns[#[trigger] at[k] as int], activity);
        assert(of[k] == activity);
        assert(of.contains(activity));
        assert(firsts.contains(activity));
        let f = choose|f: int| 0 <= f < firsts.len() && firsts[f] == activity;
        assert(counted.contains(counted[f]));
        assert(sorted.to_multiset().count(counted[f]) == counted.to_multiset().count(counted[f]));
        assert(sorted.contains(counted[f]));
        let i = choose|i: int| 0 <= i < sorted.len() && sorted[i] == counted[f];
        assert(names[i] == activity);
    }
    assert forall|i: int, j: int| #![trigger names[i], names[j]] 0 <= i < j < names.len() implies {
        let a = names[i];
        let b = names[j];
        count_of(turns, at, a) > count_of(turns, at, b) || (count_of(turns, at, a) == count_of(
            turns,
            at,
            b,
        ) && !text::str_lt(b, a))
    } by {
        assert(!lt(sorted[j], sorted[i]));
        assert(counted.contains(sorted[i]) && counted.contains(sorted[j]));
        lemma_count_of(turns, at, names[i]);
        lemma_count_of(turns, at, names[j]);
    }
}

} // verus!
