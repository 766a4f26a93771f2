//! Which rate a turn is billed at.

use crate::groups;
use crate::provider;
use crate::provider::ProviderRule;
use crate::records::SourceKind;
use crate::text;
use vstd::hash_map::StringHashMap;
use vstd::prelude::*;

verus! {

/// How the reasoning tokens of a model are billed.
#[derive(Debug, Clone, Copy, PartialEq, Eq, Structural, Hash)]
pub enum ReasoningMode {
    /// They are counted in the output already.
    IncludedInOutput,
    /// They have a tariff of their own.
    Separate,
    /// They are billed like output.
    SameAsOutput,
}

/// What to bill in another way than the model says.
#[derive(Debug, Clone, Copy, PartialEq, Eq, Structural, Default)]
pub struct CostForUsageOptions {
    pub reasoning_mode: Option<ReasoningMode>,
}

/// What reasoning tokens are billed at.
#[derive(Debug, Clone, Copy, PartialEq, Eq, Structural)]
pub enum ReasoningTariff {
    Unbilled,
    /// The tariff for reasoning.
    Reasoning,
    /// The tariff for output.
    Output,
}

/// The mode that a source calls for, where it calls for one.
pub open spec fn source_mode(source: SourceKind) -> Option<ReasoningMode> {
    match source {
        SourceKind::Codex => Some(ReasoningMode::IncludedInOutput),
        _ => None,
    }
}

/// The mode that a source calls for. The output of Codex counts its reasoning
/// already.
pub fn reasoning_mode_for_source(source: SourceKind) -> (r: Option<ReasoningMode>)
    ensures
        r == source_mode(source),
{
    match source {
        SourceKind::Codex => Some(ReasoningMode::IncludedInOutput),
        _ => None,
    }
}

/// What reasoning is billed at. A model without a tariff for reasoning is
/// billed for output, so that no token is dropped.
pub open spec fn tariff(
    options: CostForUsageOptions,
    of_model: ReasoningMode,
    has_tariff: bool,
) -> ReasoningTariff {
    let mode = match options.reasoning_mode {
        Some(m) => m,
        None => of_model,
    };
    match mode {
        ReasoningMode::IncludedInOutput => ReasoningTariff::Unbilled,
        ReasoningMode::Separate => if has_tariff {
            ReasoningTariff::Reasoning
        } else {
            ReasoningTariff::Output
        },
        ReasoningMode::SameAsOutput => ReasoningTariff::Output,
    }
}

/// What reasoning is billed at under the options.
pub fn reasoning_tariff(
    options: CostForUsageOptions,
    of_model: ReasoningMode,
    has_tariff: bool,
) -> (r: ReasoningTariff)
    ensures
        r == tariff(options, of_model, has_tariff),
{
    let mode = match options.reasoning_mode {
        Some(m) => m,
        None => of_model,
    };
    match mode {
        ReasoningMode::IncludedInOutput => ReasoningTariff::Unbilled,
        ReasoningMode::Separate => if has_tariff {
            ReasoningTariff::Reasoning
        } else {
            ReasoningTariff::Output
        },
        ReasoningMode::SameAsOutput => ReasoningTariff::Output,
    }
}

/// The options that the turns of a source are billed with.
pub fn options_for_source(source: SourceKind) -> (r: CostForUsageOptions)
    ensures
        r.reasoning_mode == source_mode(source),
{
    CostForUsageOptions { reasoning_mode: reasoning_mode_for_source(source) }
}

/// Reasoning of a Codex turn is never billed, whatever its model says.
pub proof fn lemma_codex_reasoning_is_free(of_model: ReasoningMode, has_tariff: bool)
    ensures
        tariff(
            CostForUsageOptions { reasoning_mode: source_mode(SourceKind::Codex) },
            of_model,
            has_tariff,
        ) == ReasoningTariff::Unbilled,
{
}

/// Positions in a list of rates, each under the name of its model.
pub type PriceIndex = StringHashMap<usize>;

/// The position of each name, of one that comes more than once the last.
pub open spec fn last_positions(ids: Seq<Seq<char>>) -> Map<Seq<char>, usize>
    decreases ids.len(),
{
    if ids.len() == 0 {
        Map::empty()
    } else {
        last_positions(ids.drop_last()).insert(ids.last(), (ids.len() - 1) as usize)
    }
}

/// Finds the position of each name.
pub fn index_prices(ids: &[String]) -> (r: PriceIndex)
    ensures
        r@ == last_positions(text::views(ids@)),
{
    let ghost names = text::views(ids@);
    let mut out: PriceIndex = StringHashMap::new();
    let mut i: usize = 0;
    assert(names.take(0) =~= Seq::<Seq<char>>::empty());
    while i < ids.len()
        invariant
            i <= ids@.len(),
            names == text::views(ids@),
            out@ == last_positions(names.take(i as int)),
        decreases ids@.len() - i,
    {
        assert(names.take(i + 1).drop_last() =~= names.take(i as int));
        assert(names[i as int] == ids@[i as int]@);
        out.insert(ids[i].clone(), i);
        i = i + 1;
    }
    assert(names.take(i as int) =~= names);
    out
}

/// Where one list of rates follows another, a model has the rate of the list
/// that comes later if it stands there, and the earlier one otherwise.
pub proof fn lemma_later_prices_win(earlier: Seq<Seq<char>>, later: Seq<Seq<char>>, id: Seq<char>)
    requires
        earlier.len() + later.len() <= usize::MAX,
    ensures
        last_positions(earlier + later).contains_key(id) == (earlier.contains(id)
            || later.contains(id)),
        later.contains(id) ==> last_positions(earlier + later)[id] == earlier.len()
            + last_positions(later)[id],
        earlier.contains(id) && !later.contains(id) ==> last_positions(earlier + later)[id]
            == last_positions(earlier)[id],
    decreases later.len(),
{
    if later.len() == 0 {
        assert(earlier + later =~= earlier);
        lemma_indexed(earlier, id);
    } else {
        let most = later.drop_last();
        lemma_later_prices_win(earlier, most, id);
        assert((earlier + later).drop_last() =~= earlier + most);
        assert((earlier + later).last() == later.last());
        assert(later =~= most.push(later.last()));
        assert(later.contains(id) == (most.contains(id) || id == later.last())) by {
            if most.contains(id) {
                let i = choose|i: int| 0 <= i < most.len() && most[i] == id;
                assert(later[i] == id);
            }
            if id == later.last() {
                assert(later[later.len() - 1] == id);
            }
            if later.contains(id) && id != later.last() {
                let i = choose|i: int| 0 <= i < later.len() && later[i] == id;
                assert(most[i] == id);
            }
        }
    }
}

proof fn lemma_indexed(ids: Seq<Seq<char>>, id: Seq<char>)
    ensures
        last_positions(ids).contains_key(id) == ids.contains(id),
    decreases ids.len(),
{
    if ids.len() > 0 {
        let most = ids.drop_last();
        lemma_indexed(most, id);
        if most.contains(id) {
            let i = choose|i: int| 0 <= i < most.len() && most[i] == id;
            assert(ids[i] == id);
        }
        if id == ids.last() {
            assert(ids[ids.len() - 1] == id);
        }
        if ids.contains(id) && id != ids.last() {
            let i = choose|i: int| 0 <= i < ids.len() && ids[i] == id;
            assert(most[i] == id);
        }
    }
}

/// The rate of a model: the one under its name, or else under the name that the
/// rules give it, or else under its name without the provider.
pub open spec fn rate_of(
    model: Seq<char>,
    table: Map<Seq<char>, usize>,
    rules: Seq<provider::RuleView>,
) -> Option<usize> {
    let other = provider::reattributed_model(model, rules);
    let bare = provider::without_provider(model);
    if table.contains_key(model) {
        Some(table[model])
    } else if table.contains_key(other) {
        Some(table[other])
    } else if table.contains_key(bare) {
        Some(table[bare])
    } else {
        None
    }
}

fn look_up(name: &str, table: &PriceIndex) -> (r: Option<usize>)
    ensures
        r == (if table@.contains_key(name@) {
            Some(table@[name@])
        } else {
            None
        }),
{
    match table.get(name) {
        Some(at) => Some(*at),
        None => None,
    }
}

/// The rate of a model under the rules. The table holds the position of the
/// rate of each model.
pub fn lookup_model_rate_with_rules(
    model: &str,
    table: &PriceIndex,
    rules: &[ProviderRule],
) -> (r: Option<usize>)
    ensures
        r == rate_of(model@, table@, provider::rule_views(rules@)),
{
    let direct = look_up(model, table);
    if direct.is_some() {
        return direct;
    }
    let resolved = provider::resolve_provider_with_rules(model, rules);
    let via = look_up(resolved.normalized_model.as_str(), table);
    if via.is_some() {
        return via;
    }
    let bare = provider::strip_provider_prefix(model);
    look_up(bare.as_str(), table)
}

/// The rate of a model. The table holds the position of the rate of each model.
pub fn lookup_model_rate(model: &str, table: &PriceIndex) -> (r: Option<usize>)
    ensures
        r == rate_of(model@, table@, provider::standard_rules()),
{
    let rules = provider::default_rules();
    lookup_model_rate_with_rules(model, table, rules.as_slice())
}

/// A model of a price list, as far as its rates are given.
#[derive(Debug, Clone, PartialEq)]
pub struct ListedModel {
    pub id: String,
    pub has_input: bool,
    pub has_output: bool,
    pub has_cache_write: bool,
    pub has_reasoning: bool,
}

/// The rates of a model.
#[derive(Debug, Clone, PartialEq)]
pub struct FlatRate {
    pub id: String,
    /// The position in the price list that the rates stand at.
    pub at: usize,
    /// Whether what goes into the cache is billed like input.
    pub write_as_input: bool,
    pub reasoning_mode: ReasoningMode,
}

/// The models of the list with a rate for input and one for output.
pub open spec fn is_priced(m: ListedModel) -> bool {
    m.has_input && m.has_output
}

/// The positions of the models with both rates.
pub open spec fn priced_positions(list: Seq<ListedModel>) -> Seq<usize>
    decreases list.len(),
{
    if list.len() == 0 {
        Seq::empty()
    } else {
        let rest = priced_positions(list.drop_last());
        if is_priced(list.last()) {
            rest.push((list.len() - 1) as usize)
        } else {
            rest
        }
    }
}

/// The names of the models at the positions.
pub open spec fn ids_at(list: Seq<ListedModel>, at: Seq<usize>) -> Seq<Seq<char>> {
    at.map_values(|i: usize| list[i as int].id@)
}

/// Whether `r` holds the rates of the model that stands last in the list among
/// those of the group `g`.
pub open spec fn is_flat(
    r: FlatRate,
    list: Seq<ListedModel>,
    at: Seq<usize>,
    g: (Seq<char>, Seq<usize>),
) -> bool {
    let last = at[g.1.last() as int];
    &&& r.id@ == g.0
    &&& r.at == last
    &&& r.write_as_input == !list[last as int].has_cache_write
    &&& r.reasoning_mode == (if list[last as int].has_reasoning {
        ReasoningMode::Separate
    } else {
        ReasoningMode::SameAsOutput
    })
}

fn find_priced(list: &[ListedModel]) -> (r: Vec<usize>)
    ensures
        r@ == priced_positions(list@),
        forall|i: int| 0 <= i < r@.len() ==> (#[trigger] r@[i]) < list@.len(),
{
    let mut out: Vec<usize> = Vec::new();
    let mut i: usize = 0;
    assert(list@.take(0) =~= Seq::<ListedModel>::empty());
    while i < list.len()
        invariant
            i <= list@.len(),
            out@ == priced_positions(list@.take(i as int)),
            forall|k: int| 0 <= k < out@.len() ==> (#[trigger] out@[k]) < list@.len(),
        decreases list@.len() - i,
    {
        assert(list@.take(i + 1).drop_last() =~= list@.take(i as int));
        if list[i].has_input && list[i].has_output {
            out.push(i);
        }
        i = i + 1;
    }
    assert(list@.take(i as int) =~= list@);
    out
}

/// The price list with one entry for each model. Models without a rate for
/// input or for output are left out; of several with one name the last stands.
pub fn flatten(list: &[ListedModel]) -> (r: Vec<FlatRate>)
    ensures
        ({
            let at = priced_positions(list@);
            let g = groups::groups_of(ids_at(list@, at));
            &&& r@.len() == g.len()
            &&& forall|i: int| 0 <= i < r@.len() ==> is_flat(#[trigger] r@[i], list@, at, g[i])
        }),
{
    let at = find_priced(list);
    let ghost names = ids_at(list@, at@);
    let mut keys: Vec<String> = Vec::new();
    let mut i: usize = 0;
    while i < at.len()
        invariant
            i <= at@.len(),
            forall|k: int| 0 <= k < at@.len() ==> (#[trigger] at@[k]) < list@.len(),
            keys@.len() == i,
            forall|k: int| 0 <= k < i ==> (#[trigger] keys@[k])@ == list@[at@[k] as int].id@,
        decreases at@.len() - i,
    {
        keys.push(list[at[i]].id.clone());
        i = i + 1;
    }
    assert(text::views(keys@) =~= names);
    let found = groups::group_by_key(&keys);
    let ghost gs = groups::groups_of(names);
    let n: usize = at.len();
    let mut out: Vec<FlatRate> = Vec::new();
    let mut g: usize = 0;
    assert(groups::group_views(found@).len() == found@.len());
    while g < found.len()
        invariant
            g <= found@.len(),
            n == at@.len(),
            forall|k: int| 0 <= k < at@.len() ==> (#[trigger] at@[k]) < list@.len(),
            names == ids_at(list@, at@),
            gs == groups::groups_of(names),
            gs == groups::group_views(found@),
            gs.len() == found@.len(),
            out@.len() == g,
            forall|i: int| 0 <= i < g ==> is_flat(#[trigger] out@[i], list@, at@, gs[i]),
        decreases found@.len() - g,
    {
        let ghost key = groups::first_seen(names)[g as int];
        let members = &found[g].members;
        assert(gs[g as int] == groups::group_views(found@)[g as int]);
        proof {
            groups::lemma_positions(names, key);
            groups::lemma_first_seen(names);
            assert(gs[g as int] == (key, groups::positions(names, key)));
            assert(groups::first_seen(names).contains(key));
            assert(names.contains(key));
            let k = choose|k: int| 0 <= k < names.len() && names[k] == key;
            assert(groups::positions(names, key).contains(k as usize));
            assert(members@.len() > 0);
            assert(members@[members@.len() - 1] < names.len());
        }
        let last: usize = at[members[members.len() - 1]];
        let m = &list[last];
        out.push(
            FlatRate {
                id: found[g].key.clone(),
                at: last,
                write_as_input: !m.has_cache_write,
                reasoning_mode: if m.has_reasoning {
                    ReasoningMode::Separate
                } else {
                    ReasoningMode::SameAsOutput
                },
            },
        );
        g = g + 1;
    }
    out
}

} // verus!
