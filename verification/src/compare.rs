//! Models against each other, activity by activity.

use crate::attempts;
use crate::groups;
use crate::order;
use crate::order::Ordered;
use crate::provider;
use crate::provider::UsageTotals;
use crate::records::TurnRecord;
use crate::streaks;
use crate::text;
use vstd::prelude::*;

verus! {

/// Number of turns below which a cell is flagged where no other is asked for.
pub const DEFAULT_MIN_SAMPLE: u64 = 5;

/// What is asked for.
#[derive(Debug, Clone, PartialEq)]
pub struct CompareOptions {
    /// The models to look at; all where there is none. A model that is named
    /// stays in the table even where no turn is of it.
    pub models: Option<Vec<String>>,
    pub min_sample: Option<u64>,
}

impl CompareOptions {
    /// All models and the usual sample.
    pub fn new() -> (r: CompareOptions)
        ensures
            r.models is None,
            r.min_sample is None,
    {
        CompareOptions { models: None, min_sample: None }
    }

    /// The models that are named; none where all are to be looked at.
    pub open spec fn wanted(self) -> Option<Seq<Seq<char>>> {
        match self.models {
            Some(v) => if v@.len() == 0 {
                None
            } else {
                Some(text::views(v@))
            },
            None => None,
        }
    }

    /// Number of turns below which a cell is flagged.
    pub open spec fn floor(self) -> u64 {
        match self.min_sample {
            Some(n) => n,
            None => DEFAULT_MIN_SAMPLE,
        }
    }
}

/// The turns of one model in one activity.
#[derive(Debug, Clone, PartialEq)]
pub struct CompareCell {
    pub turns: u64,
    pub edit_turns: u64,
    pub one_shot_turns: u64,
    /// The positions of the turns that have a price, in order. Their costs make
    /// up the cost of the cell.
    pub cost_turns: Vec<usize>,
    pub priced_turns: u64,
    /// The tokens of the turns. What was read from the cache is set against all
    /// input, from the cache, into the cache or past it.
    pub usage: UsageTotals,
    /// Whether there was any input to read from the cache.
    pub has_input: bool,
    /// The two numbers of retries in the middle; the median lies half way
    /// between them. `None` where nothing was edited.
    pub median_retries: Option<(u64, u64)>,
    /// There is no turn.
    pub no_data: bool,
    /// There are turns, but too few.
    pub insufficient_sample: bool,
}

/// The turns of one model.
#[derive(Debug, Clone, PartialEq)]
pub struct CompareTotals {
    pub turns: u64,
    /// The positions of the turns that have a price, in order.
    pub cost_turns: Vec<usize>,
}

/// All models against each other.
#[derive(Debug, Clone, PartialEq)]
pub struct CompareTable {
    pub models: Vec<String>,
    pub categories: Vec<String>,
    /// The cells of each model, in the order of the models and of the
    /// categories.
    pub cells: Vec<Vec<CompareCell>>,
    /// In the order of the models.
    pub totals: Vec<CompareTotals>,
    pub min_sample: u64,
}

/// The model of a turn.
pub open spec fn model_of(t: TurnRecord) -> Seq<char> {
    if t.model@.len() == 0 {
        "unknown"@
    } else {
        t.model@
    }
}

/// The activity of a turn.
pub open spec fn category_of(t: TurnRecord) -> Seq<char> {
    match t.activity {
        Some(a) => a@,
        None => "unclassified"@,
    }
}

/// Whether the model is to be looked at.
pub open spec fn is_wanted(model: Seq<char>, wanted: Option<Seq<Seq<char>>>) -> bool {
    match wanted {
        Some(names) => names.contains(model),
        None => true,
    }
}

/// The turns that are looked at.
pub open spec fn kept_turns(turns: Seq<TurnRecord>, wanted: Option<Seq<Seq<char>>>) -> Seq<usize> {
    streaks::pick(
        order::positions_up_to(turns.len()),
        |i: usize| is_wanted(model_of(turns[i as int]), wanted),
    )
}

/// The models of the turns at `at`.
pub open spec fn models_at(turns: Seq<TurnRecord>, at: Seq<usize>) -> Seq<Seq<char>> {
    at.map_values(|i: usize| model_of(turns[i as int]))
}

/// The activities of the turns at `at`.
pub open spec fn categories_at(turns: Seq<TurnRecord>, at: Seq<usize>) -> Seq<Seq<char>> {
    at.map_values(|i: usize| category_of(turns[i as int]))
}

/// The models of the table by name: those that are named, and those of the
/// turns.
pub open spec fn model_names(turns: Seq<TurnRecord>, wanted: Option<Seq<Seq<char>>>) -> Seq<
    Seq<char>,
> {
    let named = match wanted {
        Some(names) => names,
        None => Seq::empty(),
    };
    order::stable_sort(
        groups::first_seen(named + models_at(turns, kept_turns(turns, wanted))),
        order::text_order(),
    )
}

/// The turns at `at` of one model.
pub open spec fn of_model(turns: Seq<TurnRecord>, at: Seq<usize>, model: Seq<char>) -> Seq<usize> {
    streaks::pick(at, |i: usize| model_of(turns[i as int]) == model)
}

/// The turns at `at` of one activity.
pub open spec fn of_category(turns: Seq<TurnRecord>, at: Seq<usize>, category: Seq<char>) -> Seq<
    usize,
> {
    streaks::pick(at, |i: usize| category_of(turns[i as int]) == category)
}

/// An activity with its number of turns.
#[verifier::ext_equal]
pub struct Counted {
    pub name: Seq<char>,
    pub turns: nat,
}

/// The activities of the turns at `at`, each with its number of turns.
pub open spec fn counted_categories(turns: Seq<TurnRecord>, at: Seq<usize>) -> Seq<Counted> {
    groups::first_seen(categories_at(turns, at)).map_values(
        |c: Seq<char>| Counted { name: c, turns: of_category(turns, at, c).len() },
    )
}

/// The order of activities: the one with more turns first, then by name.
pub open spec fn category_order() -> spec_fn(Counted, Counted) -> bool {
    |a: Counted, b: Counted|
        a.turns > b.turns || (a.turns == b.turns && text::str_lt(a.name, b.name))
}

/// The activities of the table.
pub open spec fn category_names(turns: Seq<TurnRecord>, at: Seq<usize>) -> Seq<Seq<char>> {
    order::stable_sort(counted_categories(turns, at), category_order()).map_values(
        |c: Counted| c.name,
    )
}

/// Whether files were edited in the turn.
pub open spec fn edits(t: TurnRecord) -> bool {
    t.has_edits == Some(true)
}

/// Number of retries of the turn.
pub open spec fn retries(t: TurnRecord) -> u64 {
    match t.retries {
        Some(n) => n,
        None => 0,
    }
}

/// The turns in which files were edited.
pub open spec fn edit_turns(turns: Seq<TurnRecord>, at: Seq<usize>) -> Seq<usize> {
    streaks::pick(at, |i: usize| edits(turns[i as int]))
}

/// The turns in which files were edited without a retry.
pub open spec fn one_shot_turns(turns: Seq<TurnRecord>, at: Seq<usize>) -> Seq<usize> {
    streaks::pick(at, |i: usize| edits(turns[i as int]) && retries(turns[i as int]) == 0)
}

/// The turns that have a price.
pub open spec fn priced_turns(at: Seq<usize>, priced: Seq<bool>) -> Seq<usize> {
    streaks::pick(at, |i: usize| priced[i as int])
}

/// The retries of the turns at `at`, the smallest first.
pub open spec fn sorted_retries(turns: Seq<TurnRecord>, at: Seq<usize>) -> Seq<u64> {
    order::stable_sort(
        at.map_values(|i: usize| retries(turns[i as int])),
        |a: u64, b: u64| a < b,
    )
}

/// The two numbers in the middle, which are one where their number is odd.
pub open spec fn middle(s: Seq<u64>) -> (u64, u64) {
    let mid = s.len() as int / 2;
    if s.len() % 2 == 0 {
        (s[mid - 1], s[mid])
    } else {
        (s[mid], s[mid])
    }
}

/// The input of the turns at `at`, from the cache or not.
pub open spec fn input_total(turns: Seq<TurnRecord>, at: Seq<usize>) -> nat {
    provider::total_of(turns, at, |t: TurnRecord| t.usage.input) + provider::total_of(
        turns,
        at,
        |t: TurnRecord| t.usage.cache_read,
    ) + provider::total_of(turns, at, |t: TurnRecord| t.usage.cache_create_5m) + provider::total_of(
        turns,
        at,
        |t: TurnRecord| t.usage.cache_create_1h,
    )
}

/// Whether `r` is the cell of the turns at `at`.
pub open spec fn is_cell(
    r: CompareCell,
    turns: Seq<TurnRecord>,
    at: Seq<usize>,
    priced: Seq<bool>,
    min_sample: u64,
) -> bool {
    &&& r.turns == at.len()
    &&& r.edit_turns == edit_turns(turns, at).len()
    &&& r.one_shot_turns == one_shot_turns(turns, at).len()
    &&& r.cost_turns@ == priced_turns(at, priced)
    &&& r.priced_turns == r.cost_turns@.len()
    &&& provider::is_usage(r.usage, turns, at)
    &&& r.has_input == (input_total(turns, at) > 0)
    &&& r.median_retries == (if edit_turns(turns, at).len() > 0 {
        Some(middle(sorted_retries(turns, edit_turns(turns, at))))
    } else {
        None
    })
    &&& r.no_data == (at.len() == 0)
    &&& r.insufficient_sample == (0 < at.len() < min_sample)
}

/// Whether the totals are those of the turns at `at`.
pub open spec fn is_total(r: CompareTotals, at: Seq<usize>, priced: Seq<bool>) -> bool {
    r.turns == at.len() && r.cost_turns@ == priced_turns(at, priced)
}

/// Whether the cells are those of the model.
pub open spec fn is_cell_row(
    row: Seq<CompareCell>,
    turns: Seq<TurnRecord>,
    at: Seq<usize>,
    categories: Seq<Seq<char>>,
    priced: Seq<bool>,
    min_sample: u64,
) -> bool {
    &&& row.len() == categories.len()
    &&& forall|j: int|
        0 <= j < row.len() ==> is_cell(
            #[trigger] row[j],
            turns,
            of_category(turns, at, categories[j]),
            priced,
            min_sample,
        )
}

fn check_wanted(model: &str, models: &Option<Vec<String>>) -> (r: bool)
    ensures
        r == is_wanted(
            model@,
            match *models {
                Some(v) => if v@.len() == 0 {
                    None
                } else {
                    Some(text::views(v@))
                },
                None => None,
            },
        ),
{
    match models {
        Some(v) => v.len() == 0 || groups::holds(v, model),
        None => true,
    }
}

/// The model of a turn, as the table names it.
pub fn model_label(t: &TurnRecord) -> (r: String)
    ensures
        r@ == model_of(*t),
{
    if t.model.as_str().is_empty() {
        "unknown".to_owned()
    } else {
        t.model.clone()
    }
}

/// The activity of a turn, as the table names it.
pub fn activity_label(t: &TurnRecord) -> (r: String)
    ensures
        r@ == category_of(*t),
{
    match &t.activity {
        Some(a) => a.clone(),
        None => "unclassified".to_owned(),
    }
}

fn find_kept(turns: &[TurnRecord], opts: &CompareOptions) -> (r: Vec<usize>)
    ensures
        r@ == kept_turns(turns@, opts.wanted()),
        attempts::inside(r@, turns@.len()),
{
    let ghost all = order::positions_up_to(turns@.len());
    let ghost wanted = opts.wanted();
    let ghost p = |i: usize| is_wanted(model_of(turns@[i as int]), wanted);
    let mut out: Vec<usize> = Vec::new();
    let mut i: usize = 0;
    assert(all.take(0) =~= Seq::<usize>::empty());
    while i < turns.len()
        invariant
            i <= turns@.len(),
            all == order::positions_up_to(turns@.len()),
            wanted == opts.wanted(),
            p == (|i: usize| is_wanted(model_of(turns@[i as int]), wanted)),
            out@ == streaks::pick(all.take(i as int), p),
            attempts::inside(out@, turns@.len()),
        decreases turns@.len() - i,
    {
        assert(all.take(i + 1).drop_last() =~= all.take(i as int));
        assert(all.take(i + 1).last() == i);
        let model = model_label(&turns[i]);
        if check_wanted(model.as_str(), &opts.models) {
            out.push(i);
        }
        i = i + 1;
    }
    assert(all.take(i as int) =~= all);
    out
}

fn find_model_names(turns: &[TurnRecord], kept: &Vec<usize>, opts: &CompareOptions) -> (r: Vec<
    String,
>)
    requires
        kept@ == kept_turns(turns@, opts.wanted()),
        attempts::inside(kept@, turns@.len()),
    ensures
        text::views(r@) == model_names(turns@, opts.wanted()),
{
    let ghost named = match opts.wanted() {
        Some(names) => names,
        None => Seq::empty(),
    };
    let mut names: Vec<String> = Vec::new();
    assert(text::views(names@) =~= Seq::<Seq<char>>::empty());
    match &opts.models {
        Some(v) => {
            let mut i: usize = 0;
            assert(text::views(v@).take(0) =~= Seq::<Seq<char>>::empty());
            while i < v.len()
                invariant
                    i <= v@.len(),
                    text::views(names@) == text::views(v@).take(i as int),
                decreases v@.len() - i,
            {
                let ghost before = text::views(names@);
                names.push(v[i].clone());
                assert(text::views(names@) =~= before.push(v@[i as int]@));
                assert(text::views(v@).take(i + 1) =~= before.push(v@[i as int]@));
                i = i + 1;
            }
            assert(text::views(v@).take(i as int) =~= text::views(v@));
        },
        None => {},
    }
    assert(text::views(names@) =~= named);
    let ghost models = models_at(turns@, kept@);
    let mut k: usize = 0;
    assert(named + models.take(0) =~= named);
    while k < kept.len()
        invariant
            k <= kept@.len(),
            attempts::inside(kept@, turns@.len()),
            models == models_at(turns@, kept@),
            text::views(names@) == named + models.take(k as int),
        decreases kept@.len() - k,
    {
        let ghost before = text::views(names@);
        let m = model_label(&turns[kept[k]]);
        names.push(m);
        assert(text::views(names@) =~= before.push(m@));
        assert(named + models.take(k + 1) =~= (named + models.take(k as int)).push(
            models[k as int],
        ));
        k = k + 1;
    }
    assert(models.take(k as int) =~= models);
    let seen = groups::distinct(&names);
    order::sort_texts(seen)
}

/// The turns of a model that are looked at.
#[derive(Debug, Clone, PartialEq)]
pub struct ModelTurns {
    pub model: String,
    /// The positions of the turns that have a price, in order.
    pub cost_turns: Vec<usize>,
}

fn pick_model(turns: &[TurnRecord], at: &Vec<usize>, model: &str) -> (r: Vec<usize>)
    requires
        attempts::inside(at@, turns@.len()),
    ensures
        r@ == of_model(turns@, at@, model@),
        attempts::inside(r@, turns@.len()),
{
    let ghost p = |i: usize| model_of(turns@[i as int]) == model@;
    let mut out: Vec<usize> = Vec::new();
    let mut i: usize = 0;
    assert(at@.take(0) =~= Seq::<usize>::empty());
    while i < at.len()
        invariant
            i <= at@.len(),
            attempts::inside(at@, turns@.len()),
            p == (|i: usize| model_of(turns@[i as int]) == model@),
            out@ == streaks::pick(at@.take(i as int), p),
            attempts::inside(out@, turns@.len()),
        decreases at@.len() - i,
    {
        assert(at@.take(i + 1).drop_last() =~= at@.take(i as int));
        assert(at@.take(i + 1).last() == at@[i as int]);
        let m = model_label(&turns[at[i]]);
        if text::same(m.as_str(), model) {
            out.push(at[i]);
        }
        i = i + 1;
    }
    assert(at@.take(i as int) =~= at@);
    out
}

fn pick_category(turns: &[TurnRecord], at: &Vec<usize>, category: &str) -> (r: Vec<usize>)
    requires
        attempts::inside(at@, turns@.len()),
    ensures
        r@ == of_category(turns@, at@, category@),
        attempts::inside(r@, turns@.len()),
        r@.len() <= at@.len(),
{
    let ghost p = |i: usize| category_of(turns@[i as int]) == category@;
    let mut out: Vec<usize> = Vec::new();
    let mut i: usize = 0;
    assert(at@.take(0) =~= Seq::<usize>::empty());
    while i < at.len()
        invariant
            i <= at@.len(),
            attempts::inside(at@, turns@.len()),
            p == (|i: usize| category_of(turns@[i as int]) == category@),
            out@ == streaks::pick(at@.take(i as int), p),
            out@.len() <= i,
            attempts::inside(out@, turns@.len()),
        decreases at@.len() - i,
    {
        assert(at@.take(i + 1).drop_last() =~= at@.take(i as int));
        assert(at@.take(i + 1).last() == at@[i as int]);
        let c = activity_label(&turns[at[i]]);
        if text::same(c.as_str(), category) {
            out.push(at[i]);
        }
        i = i + 1;
    }
    assert(at@.take(i as int) =~= at@);
    out
}

fn pick_priced(at: &Vec<usize>, priced: &[bool]) -> (r: Vec<usize>)
    requires
        attempts::inside(at@, priced@.len()),
    ensures
        r@ == priced_turns(at@, priced@),
{
    let ghost p = |i: usize| priced@[i as int];
    let mut out: Vec<usize> = Vec::new();
    let mut i: usize = 0;
    assert(at@.take(0) =~= Seq::<usize>::empty());
    while i < at.len()
        invariant
            i <= at@.len(),
            attempts::inside(at@, priced@.len()),
            p == (|i: usize| priced@[i as int]),
            out@ == streaks::pick(at@.take(i as int), p),
        decreases at@.len() - i,
    {
        assert(at@.take(i + 1).drop_last() =~= at@.take(i as int));
        assert(at@.take(i + 1).last() == at@[i as int]);
        if priced[at[i]] {
            out.push(at[i]);
        }
        i = i + 1;
    }
    assert(at@.take(i as int) =~= at@);
    out
}

/// The models of the table by name, each with the turns that make up its cost.
pub fn compare_models(turns: &[TurnRecord], priced: &[bool], opts: &CompareOptions) -> (r: Vec<
    ModelTurns,
>)
    requires
        priced@.len() == turns@.len(),
    ensures
        r@.len() == model_names(turns@, opts.wanted()).len(),
        forall|i: int|
            0 <= i < r@.len() ==> (#[trigger] r@[i]).model@ == model_names(
                turns@,
                opts.wanted(),
            )[i] && r@[i].cost_turns@ == priced_turns(
                of_model(
                    turns@,
                    kept_turns(turns@, opts.wanted()),
                    model_names(turns@, opts.wanted())[i],
                ),
                priced@,
            ),
{
    let kept = find_kept(turns, opts);
    let names = find_model_names(turns, &kept, opts);
    let ghost nv = model_names(turns@, opts.wanted());
    let mut out: Vec<ModelTurns> = Vec::new();
    let mut i: usize = 0;
    assert(text::views(names@).len() == names@.len());
    while i < names.len()
        invariant
            i <= names@.len(),
            priced@.len() == turns@.len(),
            kept@ == kept_turns(turns@, opts.wanted()),
            attempts::inside(kept@, turns@.len()),
            nv == text::views(names@),
            nv == model_names(turns@, opts.wanted()),
            out@.len() == i,
            forall|k: int|
                0 <= k < i ==> (#[trigger] out@[k]).model@ == nv[k] && out@[k].cost_turns@
                    == priced_turns(of_model(turns@, kept@, nv[k]), priced@),
        decreases names@.len() - i,
    {
        let members = pick_model(turns, &kept, names[i].as_str());
        let cost_turns = pick_priced(&members, priced);
        out.push(ModelTurns { model: names[i].clone(), cost_turns });
        i = i + 1;
    }
    out
}

struct CategorySlot {
    name: String,
    turns: usize,
}

impl CategorySlot {
    spec fn view(&self) -> Counted {
        Counted { name: self.name@, turns: self.turns as nat }
    }
}

impl Ordered for CategorySlot {
    closed spec fn before(self, other: Self) -> bool {
        self.turns > other.turns || (self.turns == other.turns && text::str_lt(
            self.name@,
            other.name@,
        ))
    }

    fn is_before(&self, other: &Self) -> (r: bool) {
        self.turns > other.turns || (self.turns == other.turns && text::less(
            self.name.as_str(),
            other.name.as_str(),
        ))
    }
}

fn find_category_names(turns: &[TurnRecord], at: &Vec<usize>) -> (r: Vec<String>)
    requires
        attempts::inside(at@, turns@.len()),
    ensures
        text::views(r@) == category_names(turns@, at@),
{
    let ghost cats = categories_at(turns@, at@);
    let mut labels: Vec<String> = Vec::new();
    let mut i: usize = 0;
    while i < at.len()
        invariant
            i <= at@.len(),
            attempts::inside(at@, turns@.len()),
            labels@.len() == i,
            forall|k: int|
                0 <= k < i ==> (#[trigger] labels@[k])@ == category_of(turns@[at@[k] as int]),
        decreases at@.len() - i,
    {
        labels.push(activity_label(&turns[at[i]]));
        i = i + 1;
    }
    assert(text::views(labels@) =~= cats);
    let seen = groups::distinct(&labels);
    let ghost fs = groups::first_seen(cats);
    let mut slots: Vec<CategorySlot> = Vec::new();
    let mut j: usize = 0;
    assert(text::views(seen@).len() == seen@.len());
    while j < seen.len()
        invariant
            j <= seen@.len(),
            attempts::inside(at@, turns@.len()),
            fs == text::views(seen@),
            slots@.len() == j,
            forall|k: int|
                0 <= k < j ==> (#[trigger] slots@[k])@ == (Counted {
                    name: fs[k],
                    turns: of_category(turns@, at@, fs[k]).len(),
                }),
        decreases seen@.len() - j,
    {
        let members = pick_category(turns, at, seen[j].as_str());
        slots.push(CategorySlot { name: seen[j].clone(), turns: members.len() });
        j = j + 1;
    }
    let ghost given = slots@;
    let sorted = order::sort(slots);
    let ghost counted = counted_categories(turns@, at@);
    let ghost target = order::stable_sort(counted, category_order());
    proof {
        let f = |s: CategorySlot| s@;
        assert(given.map_values(f) =~= counted);
        order::lemma_sort_map(given, f, order::order_of::<CategorySlot>(), category_order());
        assert(sorted@.map_values(f) == target);
        assert(forall|k: int|
            0 <= k < sorted@.len() ==> (#[trigger] sorted@[k])@ == sorted@.map_values(f)[k]);
    }
    let mut out: Vec<String> = Vec::new();
    let mut k: usize = 0;
    while k < sorted.len()
        invariant
            k <= sorted@.len(),
            target.len() == sorted@.len(),
            forall|k: int| 0 <= k < sorted@.len() ==> (#[trigger] sorted@[k])@ == target[k],
            out@.len() == k,
            forall|q: int| 0 <= q < k ==> (#[trigger] out@[q])@ == target[q].name,
        decreases sorted@.len() - k,
    {
        assert(sorted@[k as int]@ == target[k as int]);
        out.push(sorted[k].name.clone());
        k = k + 1;
    }
    assert(text::views(out@) =~= category_names(turns@, at@));
    out
}

impl Ordered for u64 {
    open spec fn before(self, other: Self) -> bool {
        self < other
    }

    fn is_before(&self, other: &Self) -> (r: bool) {
        *self < *other
    }
}

fn find_median(turns: &[TurnRecord], at: &Vec<usize>) -> (r: (u64, u64))
    requires
        attempts::inside(at@, turns@.len()),
        at@.len() > 0,
    ensures
        r == middle(sorted_retries(turns@, at@)),
{
    let mut samples: Vec<u64> = Vec::new();
    let mut i: usize = 0;
    while i < at.len()
        invariant
            i <= at@.len(),
            attempts::inside(at@, turns@.len()),
            samples@.len() == i,
            forall|k: int| 0 <= k < i ==> #[trigger] samples@[k] == retries(turns@[at@[k] as int]),
        decreases at@.len() - i,
    {
        let n: u64 = match turns[at[i]].retries {
            Some(n) => n,
            None => 0,
        };
        samples.push(n);
        i = i + 1;
    }
    assert(samples@ =~= at@.map_values(|i: usize| retries(turns@[i as int])));
    let ghost given = samples@;
    let sorted = order::sort(samples);
    proof {
        let lt = |a: u64, b: u64| a < b;
        assert(order::order_of::<u64>() =~= lt);
        order::lemma_sort_multiset(given, lt);
    }
    let mid: usize = sorted.len() / 2;
    if sorted.len() % 2 == 0 {
        (sorted[mid - 1], sorted[mid])
    } else {
        (sorted[mid], sorted[mid])
    }
}

fn pick_edits(turns: &[TurnRecord], at: &Vec<usize>) -> (r: (Vec<usize>, u64))
    requires
        attempts::inside(at@, turns@.len()),
    ensures
        r.0@ == edit_turns(turns@, at@),
        attempts::inside(r.0@, turns@.len()),
        r.1 == one_shot_turns(turns@, at@).len(),
{
    let ghost p = |i: usize| edits(turns@[i as int]);
    let ghost q = |i: usize| edits(turns@[i as int]) && retries(turns@[i as int]) == 0;
    let mut out: Vec<usize> = Vec::new();
    let mut shots: u64 = 0;
    let mut i: usize = 0;
    assert(at@.take(0) =~= Seq::<usize>::empty());
    while i < at.len()
        invariant
            i <= at@.len(),
            attempts::inside(at@, turns@.len()),
            p == (|i: usize| edits(turns@[i as int])),
            q == (|i: usize| edits(turns@[i as int]) && retries(turns@[i as int]) == 0),
            out@ == streaks::pick(at@.take(i as int), p),
            shots == streaks::pick(at@.take(i as int), q).len(),
            shots <= i,
            attempts::inside(out@, turns@.len()),
        decreases at@.len() - i,
    {
        assert(at@.take(i + 1).drop_last() =~= at@.take(i as int));
        assert(at@.take(i + 1).last() == at@[i as int]);
        let t = &turns[at[i]];
        let edited = match t.has_edits {
            Some(b) => b,
            None => false,
        };
        if edited {
            out.push(at[i]);
            let n: u64 = match t.retries {
                Some(n) => n,
                None => 0,
            };
            if n == 0 {
                shots = shots + 1;
            }
        }
        i = i + 1;
    }
    assert(at@.take(i as int) =~= at@);
    (out, shots)
}

fn to_cell(turns: &[TurnRecord], at: &Vec<usize>, priced: &[bool], min_sample: u64) -> (r:
    CompareCell)
    requires
        attempts::inside(at@, turns@.len()),
        priced@.len() == turns@.len(),
    ensures
        is_cell(r, turns@, at@, priced@, min_sample),
{
    let (edited, one_shot_turns) = pick_edits(turns, at);
    let cost_turns = pick_priced(at, priced);
    let usage = provider::sum_usage(turns, at);
    let median_retries = if edited.len() > 0 {
        Some(find_median(turns, &edited))
    } else {
        None
    };
    CompareCell {
        turns: at.len() as u64,
        edit_turns: edited.len() as u64,
        one_shot_turns,
        priced_turns: cost_turns.len() as u64,
        cost_turns,
        has_input: usage.input > 0 || usage.cache_read > 0 || usage.cache_create_5m > 0
            || usage.cache_create_1h > 0,
        usage,
        median_retries,
        no_data: at.len() == 0,
        insufficient_sample: at.len() > 0 && (at.len() as u64) < min_sample,
    }
}

fn to_row(
    turns: &[TurnRecord],
    at: &Vec<usize>,
    categories: &Vec<String>,
    priced: &[bool],
    min_sample: u64,
) -> (r: Vec<CompareCell>)
    requires
        attempts::inside(at@, turns@.len()),
        priced@.len() == turns@.len(),
    ensures
        is_cell_row(r@, turns@, at@, text::views(categories@), priced@, min_sample),
{
    let ghost cats = text::views(categories@);
    let mut out: Vec<CompareCell> = Vec::new();
    let mut j: usize = 0;
    while j < categories.len()
        invariant
            j <= categories@.len(),
            attempts::inside(at@, turns@.len()),
            priced@.len() == turns@.len(),
            cats == text::views(categories@),
            out@.len() == j,
            forall|k: int|
                0 <= k < j ==> is_cell(
                    #[trigger] out@[k],
                    turns@,
                    of_category(turns@, at@, cats[k]),
                    priced@,
                    min_sample,
                ),
        decreases categories@.len() - j,
    {
        let members = pick_category(turns, at, categories[j].as_str());
        out.push(to_cell(turns, &members, priced, min_sample));
        j = j + 1;
    }
    out
}

/// The table of all models. `cost_keys` ranks the models by their cost, in the
/// order in which [`compare_models`] lists them; models of one cost come by
/// name. `priced` says for each turn whether its model has a price.
pub fn build_compare_table(
    turns: &[TurnRecord],
    priced: &[bool],
    cost_keys: &[i64],
    opts: &CompareOptions,
) -> (r: CompareTable)
    requires
        priced@.len() == turns@.len(),
        cost_keys@.len() == model_names(turns@, opts.wanted()).len(),
    ensures
        ({
            let kept = kept_turns(turns@, opts.wanted());
            let names = model_names(turns@, opts.wanted());
            let ranks = order::ranked(cost_keys@, names);
            &&& text::views(r.models@) == ranks.map_values(|i: usize| names[i as int])
            &&& text::views(r.categories@) == category_names(turns@, kept)
            &&& r.min_sample == opts.floor()
            &&& r.cells@.len() == r.models@.len()
            &&& r.totals@.len() == r.models@.len()
            &&& forall|i: int|
                0 <= i < r.models@.len() ==> is_cell_row(
                    (#[trigger] r.cells@[i])@,
                    turns@,
                    of_model(turns@, kept, r.models@[i]@),
                    category_names(turns@, kept),
                    priced@,
                    opts.floor(),
                )
            &&& forall|i: int|
                0 <= i < r.models@.len() ==> is_total(
                    #[trigger] r.totals@[i],
                    of_model(turns@, kept, r.models@[i]@),
                    priced@,
                )
        }),
{
    let kept = find_kept(turns, opts);
    let names = find_model_names(turns, &kept, opts);
    let categories = find_category_names(turns, &kept);
    let min_sample: u64 = match opts.min_sample {
        Some(n) => n,
        None => DEFAULT_MIN_SAMPLE,
    };
    let ghost nv = model_names(turns@, opts.wanted());
    assert(text::views(names@).len() == names@.len());
    let ranks = order::rank(cost_keys, names.as_slice());
    let mut models: Vec<String> = Vec::new();
    let mut cells: Vec<Vec<CompareCell>> = Vec::new();
    let mut totals: Vec<CompareTotals> = Vec::new();
    let mut i: usize = 0;
    while i < ranks.len()
        invariant
            i <= ranks@.len(),
            priced@.len() == turns@.len(),
            min_sample == opts.floor(),
            kept@ == kept_turns(turns@, opts.wanted()),
            attempts::inside(kept@, turns@.len()),
            nv == text::views(names@),
            forall|k: int| 0 <= k < ranks@.len() ==> (#[trigger] ranks@[k]) < names@.len(),
            text::views(categories@) == category_names(turns@, kept@),
            models@.len() == i,
            cells@.len() == i,
            totals@.len() == i,
            forall|k: int| 0 <= k < i ==> (#[trigger] models@[k])@ == nv[ranks@[k] as int],
            forall|k: int|
                0 <= k < i ==> is_cell_row(
                    (#[trigger] cells@[k])@,
                    turns@,
                    of_model(turns@, kept@, models@[k]@),
                    category_names(turns@, kept@),
                    priced@,
                    min_sample,
                ),
            forall|k: int|
                0 <= k < i ==> is_total(
                    #[trigger] totals@[k],
                    of_model(turns@, kept@, models@[k]@),
                    priced@,
                ),
        decreases ranks@.len() - i,
    {
        let name = names[ranks[i]].clone();
        let members = pick_model(turns, &kept, name.as_str());
        let row = to_row(turns, &members, &categories, priced, min_sample);
        let total = CompareTotals {
            turns: members.len() as u64,
            cost_turns: pick_priced(&members, priced),
        };
        models.push(name);
        cells.push(row);
        totals.push(total);
        i = i + 1;
    }
    assert(text::views(models@) =~= ranks@.map_values(|i: usize| nv[i as int]));
    CompareTable { models, categories, cells, totals, min_sample }
}

/// A cell is never both empty and too small.
pub proof fn lemma_flags_exclude(
    r: CompareCell,
    turns: Seq<TurnRecord>,
    at: Seq<usize>,
    priced: Seq<bool>,
    min_sample: u64,
)
    requires
        is_cell(r, turns, at, priced, min_sample),
    ensures
        !(r.no_data && r.insufficient_sample),
        r.no_data ==> r.priced_turns == 0 && r.median_retries is None && !r.has_input,
        r.one_shot_turns <= r.edit_turns <= r.turns,
        r.priced_turns <= r.turns,
        r.usage.cache_read <= input_total(turns, at),
{
    lemma_pick_fewer(
        at,
        |i: usize| edits(turns[i as int]) && retries(turns[i as int]) == 0,
        |i: usize| edits(turns[i as int]),
    );
    lemma_pick_fewer(at, |i: usize| edits(turns[i as int]), |i: usize| true);
    lemma_pick_fewer(at, |i: usize| priced[i as int], |i: usize| true);
    lemma_pick_all(at);
}

proof fn lemma_pick_fewer(s: Seq<usize>, p: spec_fn(usize) -> bool, q: spec_fn(usize) -> bool)
    requires
        forall|i: usize| #[trigger] p(i) ==> q(i),
    ensures
        streaks::pick(s, p).len() <= streaks::pick(s, q).len(),
    decreases s.len(),
{
    if s.len() > 0 {
        lemma_pick_fewer(s.drop_last(), p, q);
        let x = s.last();
        assert(p(x) ==> q(x));
    }
}

proof fn lemma_pick_all(s: Seq<usize>)
    ensures
        streaks::pick(s, |i: usize| true).len() == s.len(),
    decreases s.len(),
{
    if s.len() > 0 {
        lemma_pick_all(s.drop_last());
    }
}

/// The turns at `at` of the activities `names`, counted.
pub open spec fn turns_in(turns: Seq<TurnRecord>, at: Seq<usize>, names: Seq<Seq<char>>) -> nat
    decreases names.len(),
{
    if names.len() == 0 {
        0
    } else {
        turns_in(turns, at, names.drop_last()) + of_category(turns, at, names.last()).len()
    }
}

proof fn lemma_turns_in_step(turns: Seq<TurnRecord>, at: Seq<usize>, names: Seq<Seq<char>>)
    requires
        at.len() > 0,
        names.no_duplicates(),
    ensures
        turns_in(turns, at, names) == turns_in(turns, at.drop_last(), names) + if names.contains(
            category_of(turns[at.last() as int]),
        ) {
            1int
        } else {
            0int
        },
    decreases names.len(),
{
    if names.len() > 0 {
        let p = names.drop_last();
        let c = category_of(turns[at.last() as int]);
        lemma_turns_in_step(turns, at, p);
        if names.last() == c {
            assert(names[names.len() - 1] == c);
            if p.contains(c) {
                let i = choose|i: int| 0 <= i < p.len() && p[i] == c;
                assert(names[i] == names[names.len() - 1]);
            }
        } else if names.contains(c) {
            let i = choose|i: int| 0 <= i < names.len() && names[i] == c;
            assert(p[i] == c);
        }
        if p.contains(c) {
            let i = choose|i: int| 0 <= i < p.len() && p[i] == c;
            assert(names[i] == c);
        }
    }
}

/// The cells of a model hold its turns: each turn stands in exactly one of them.
pub proof fn lemma_cells_cover(turns: Seq<TurnRecord>, at: Seq<usize>, names: Seq<Seq<char>>)
    requires
        names.no_duplicates(),
        forall|i: int|
            0 <= i < at.len() ==> names.contains(category_of(turns[#[trigger] at[i] as int])),
    ensures
        turns_in(turns, at, names) == at.len(),
    decreases at.len(),
{
    if at.len() > 0 {
        let d = at.drop_last();
        assert forall|i: int| 0 <= i < d.len() implies names.contains(
            category_of(turns[#[trigger] d[i] as int]),
        ) by {
            assert(d[i] == at[i]);
        }
        lemma_cells_cover(turns, d, names);
        lemma_turns_in_step(turns, at, names);
        assert(names.contains(category_of(turns[at[at.len() - 1] as int])));
    } else {
        lemma_no_turns(turns, at, names);
    }
}

proof fn lemma_no_turns(turns: Seq<TurnRecord>, at: Seq<usize>, names: Seq<Seq<char>>)
    requires
        at.len() == 0,
    ensures
        turns_in(turns, at, names) == 0,
    decreases names.len(),
{
    if names.len() > 0 {
        lemma_no_turns(turns, at, names.drop_last());
    }
}

} // verus!
