//! What tokens are billed at.

use crate::cost;
use crate::cost::{CostForUsageOptions, FlatRate, ListedModel, ReasoningMode, ReasoningTariff};
use crate::groups;
use crate::provider;
use crate::records::SourceKind;
use vstd::prelude::*;

verus! {

/// Reasoning goes unbilled if and only if it is counted in the output. It has a
/// tariff of its own if and only if it is billed separately and there is one.
/// What the options ask for goes before what the model says.
pub proof fn lemma_tariffs(of_model: ReasoningMode, asked: Option<ReasoningMode>, has_tariff: bool)
    ensures
        ({
            let t = cost::tariff(
                CostForUsageOptions { reasoning_mode: asked },
                of_model,
                has_tariff,
            );
            let included = ReasoningMode::IncludedInOutput;
            let separate = ReasoningMode::Separate;
            &&& t == ReasoningTariff::Unbilled <==> asked == Some(included) || (asked is None
                && of_model == included)
            &&& t == ReasoningTariff::Reasoning <==> has_tariff && (asked == Some(separate) || (
            asked is None && of_model == separate))
            &&& asked is Some ==> t == cost::tariff(
                CostForUsageOptions { reasoning_mode: None },
                asked->Some_0,
                has_tariff,
            )
        }),
{
}

/// Only the output of Codex counts its reasoning; no other source changes how
/// a model is billed.
pub proof fn lemma_source_modes(source: SourceKind)
    ensures
        cost::source_mode(source) == Some(ReasoningMode::IncludedInOutput) <==> source
            == SourceKind::Codex,
        cost::source_mode(source) is None <==> source != SourceKind::Codex,
{
}

/// A model is priced under its own id where that is listed; else under the id
/// that the rules take it for; else under what stands behind its first slash.
pub proof fn lemma_rate_order(
    model: Seq<char>,
    table: Map<Seq<char>, usize>,
    rules: Seq<provider::RuleView>,
)
    ensures
        table.contains_key(model) ==> cost::rate_of(model, table, rules) == Some(table[model]),
        cost::rate_of(model, table, rules) matches Some(at) ==> exists|id: Seq<char>| #[trigger]
            table.contains_key(id) && table[id] == at && (id == model || id
                == provider::reattributed_model(model, rules) || id == provider::without_provider(
                model,
            )),
        !table.contains_key(model) && table.contains_key(
            provider::reattributed_model(model, rules),
        ) ==> cost::rate_of(model, table, rules) == Some(
            table[provider::reattributed_model(model, rules)],
        ),
        !table.contains_key(model) && !table.contains_key(
            provider::reattributed_model(model, rules),
        ) && table.contains_key(provider::without_provider(model)) ==> cost::rate_of(
            model,
            table,
            rules,
        ) == Some(table[provider::without_provider(model)]),
{
}

/// The price of an id is the last that is listed for it, and an id has a price
/// if and only if it is listed.
pub proof fn lemma_last_price(ids: Seq<Seq<char>>, id: Seq<char>)
    requires
        ids.len() <= usize::MAX,
    ensures
        cost::last_positions(ids).contains_key(id) <==> ids.contains(id),
        cost::last_positions(ids).contains_key(id) ==> ({
            let at = cost::last_positions(ids)[id] as int;
            &&& 0 <= at < ids.len()
            &&& ids[at] == id
            &&& forall|k: int| at < k < ids.len() ==> #[trigger] ids[k] != id
        }),
    decreases ids.len(),
{
    if ids.len() > 0 {
        let d = ids.drop_last();
        lemma_last_price(d, id);
        assert(ids[ids.len() - 1] == ids.last());
        if d.contains(id) {
            let k = choose|k: int| 0 <= k < d.len() && d[k] == id;
            assert(ids[k] == id);
        }
        if ids.contains(id) && ids.last() != id {
            let k = choose|k: int| 0 <= k < ids.len() && ids[k] == id;
            assert(d[k] == id);
        }
        if ids.last() != id && d.contains(id) {
            let at = cost::last_positions(ids)[id] as int;
            assert(d[at] == ids[at]);
            assert forall|k: int| at < k < ids.len() implies #[trigger] ids[k] != id by {
                if k < d.len() {
                    assert(d[k] == ids[k]);
                }
            }
        }
    }
}

proof fn lemma_priced(list: Seq<ListedModel>)
    requires
        list.len() <= usize::MAX,
    ensures
        forall|k: int|
            0 <= k < cost::priced_positions(list).len() ==> (#[trigger] cost::priced_positions(
                list,
            )[k]) < list.len() && list[cost::priced_positions(list)[k] as int].has_input
                && list[cost::priced_positions(list)[k] as int].has_output,
        forall|a: int, b: int|
            0 <= a < b < cost::priced_positions(list).len() ==> #[trigger] cost::priced_positions(
                list,
            )[a] < #[trigger] cost::priced_positions(list)[b],
        forall|i: int|
            0 <= i < list.len() && (#[trigger] list[i]).has_input && list[i].has_output
                ==> cost::priced_positions(list).contains(i as usize),
        cost::priced_positions(list).len() <= list.len(),
    decreases list.len(),
{
    if list.len() > 0 {
        let d = list.drop_last();
        lemma_priced(d);
        let rest = cost::priced_positions(d);
        let all = cost::priced_positions(list);
        assert forall|k: int| 0 <= k < all.len() implies (#[trigger] all[k]) < list.len()
            && list[all[k] as int].has_input && list[all[k] as int].has_output by {
            if k < rest.len() {
                assert(all[k] == rest[k]);
                assert(d[rest[k] as int] == list[rest[k] as int]);
            }
        }
        assert forall|a: int, b: int| 0 <= a < b < all.len() implies #[trigger] all[a]
            < #[trigger] all[b] by {
            assert(all[a] == rest[a]);
            assert(rest[a] < d.len());
            if b < rest.len() {
                assert(all[b] == rest[b]);
            }
        }
        assert forall|i: int|
            0 <= i < list.len() && (#[trigger] list[i]).has_input
                && list[i].has_output implies all.contains(i as usize) by {
            if i < d.len() {
                assert(d[i] == list[i]);
                let k = choose|k: int| 0 <= k < rest.len() && rest[k] == i as usize;
                assert(all[k] == i as usize);
            } else {
                assert(all[rest.len() as int] == i as usize);
            }
        }
    }
}

/// What [`cost::flatten`] makes of a price list.
pub open spec fn flattened(r: Seq<FlatRate>, list: Seq<ListedModel>) -> bool {
    let at = cost::priced_positions(list);
    let g = groups::groups_of(cost::ids_at(list, at));
    &&& r.len() == g.len()
    &&& forall|i: int| 0 <= i < r.len() ==> cost::is_flat(#[trigger] r[i], list, at, g[i])
}

/// A model has rates if and only if it is listed with a rate for input and one
/// for output. The last such listing holds. Where it has no rate for what goes
/// into the cache, that is billed like input; reasoning is billed separately
/// where it has a rate for it, and like output where not.
pub proof fn lemma_flat_rates(r: Seq<FlatRate>, list: Seq<ListedModel>)
    requires
        list.len() <= usize::MAX,
        flattened(r, list),
    ensures
        forall|i: int|
            0 <= i < r.len() ==> ({
                let x = #[trigger] r[i];
                let m = list[x.at as int];
                &&& x.at < list.len()
                &&& x.id@ == m.id@
                &&& m.has_input && m.has_output
                &&& x.write_as_input <==> !m.has_cache_write
                &&& x.reasoning_mode == ReasoningMode::Separate <==> m.has_reasoning
                &&& x.reasoning_mode == ReasoningMode::SameAsOutput <==> !m.has_reasoning
                &&& forall|k: int|
                    x.at < k < list.len() && (#[trigger] list[k]).has_input && list[k].has_output
                        ==> list[k].id@ != x.id@
            }),
        forall|k: int|
            0 <= k < list.len() && (#[trigger] list[k]).has_input && list[k].has_output
                ==> exists|i: int| 0 <= i < r.len() && (#[trigger] r[i]).id@ == list[k].id@,
        forall|i: int, j: int|
            0 <= i < j < r.len() ==> (#[trigger] r[i]).id@ != (#[trigger] r[j]).id@,
{
    let at = cost::priced_positions(list);
    let ids = cost::ids_at(list, at);
    let g = groups::groups_of(ids);
    let seen = groups::first_seen(ids);
    lemma_priced(list);
    groups::lemma_first_seen(ids);
    assert forall|i: int| 0 <= i < r.len() implies ({
        let x = #[trigger] r[i];
        let m = list[x.at as int];
        &&& x.at < list.len()
        &&& x.id@ == m.id@
        &&& m.has_input && m.has_output
        &&& x.write_as_input <==> !m.has_cache_write
        &&& x.reasoning_mode == ReasoningMode::Separate <==> m.has_reasoning
        &&& x.reasoning_mode == ReasoningMode::SameAsOutput <==> !m.has_reasoning
        &&& forall|k: int|
            x.at < k < list.len() && (#[trigger] list[k]).has_input && list[k].has_output
                ==> list[k].id@ != x.id@
    }) by {
        let x = r[i];
        assert(cost::is_flat(x, list, at, g[i]));
        assert(g[i] == (seen[i], groups::positions(ids, seen[i])));
        let own = g[i].1;
        groups::lemma_positions(ids, seen[i]);
        assert(seen.contains(seen[i]));
        assert(own.len() > 0);
        let last = own.len() - 1;
        assert(own[last] < ids.len());
        assert(ids[own[last] as int] == seen[i]);
        assert(x.at == at[own[last] as int]);
        assert forall|k: int|
            x.at < k < list.len() && (#[trigger] list[k]).has_input
                && list[k].has_output implies list[k].id@ != x.id@ by {
            if list[k].id@ == x.id@ {
                let q = choose|q: int| 0 <= q < at.len() && at[q] == k as usize;
                assert(ids[q] == seen[i]);
                assert(own.contains(q as usize));
                let z = choose|z: int| 0 <= z < own.len() && own[z] == q as usize;
                if z < last {
                    assert(own[z] < own[last]);
                    assert(at[q] < at[own[last] as int]);
                }
            }
        }
    }
    assert forall|k: int|
        0 <= k < list.len() && (#[trigger] list[k]).has_input
            && list[k].has_output implies exists|i: int|
        0 <= i < r.len() && (#[trigger] r[i]).id@ == list[k].id@ by {
        let q = choose|q: int| 0 <= q < at.len() && at[q] == k as usize;
        assert(ids[q] == list[k].id@);
        assert(ids.contains(list[k].id@));
        assert(seen.contains(list[k].id@));
        let i = choose|i: int| 0 <= i < seen.len() && seen[i] == list[k].id@;
        assert(cost::is_flat(r[i], list, at, g[i]));
    }
    assert forall|i: int, j: int| 0 <= i < j < r.len() implies (#[trigger] r[i]).id@ != (
    #[trigger] r[j]).id@ by {
        assert(cost::is_flat(r[i], list, at, g[i]));
        assert(cost::is_flat(r[j], list, at, g[j]));
        assert(seen[i] != seen[j]);
    }
}

} // verus!
