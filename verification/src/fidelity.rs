//! How well the turns of a slice are recorded.

use crate::records::{Coverage, Fidelity, FidelityClass, TurnRecord, UsageGranularity};
use vstd::prelude::*;

verus! {

/// Number of turns of each class.
#[derive(Debug, Clone, Copy, PartialEq, Eq, Structural)]
pub struct ClassCounts {
    pub full: u64,
    pub usage_only: u64,
    pub aggregate_only: u64,
    pub cost_only: u64,
    pub partial: u64,
}

/// Number of turns of each granularity.
#[derive(Debug, Clone, Copy, PartialEq, Eq, Structural)]
pub struct GranularityCounts {
    pub per_turn: u64,
    pub per_message: u64,
    pub per_session_aggregate: u64,
    pub cost_only: u64,
}

/// Number of turns that lack each part.
#[derive(Debug, Clone, Copy, PartialEq, Eq, Structural)]
pub struct MissingCounts {
    pub has_input_tokens: u64,
    pub has_output_tokens: u64,
    pub has_reasoning_tokens: u64,
    pub has_cache_read_tokens: u64,
    pub has_cache_create_tokens: u64,
    pub has_tool_calls: u64,
    pub has_tool_result_events: u64,
    pub has_session_relationships: u64,
    pub has_raw_content: u64,
}

/// What can honestly be said of a slice of turns: how many are of each class
/// and granularity, and how many lack each part.
#[derive(Debug, Clone, Copy, PartialEq, Eq, Structural)]
pub struct FidelitySummary {
    pub total: u64,
    pub by_class: ClassCounts,
    pub by_granularity: GranularityCounts,
    pub missing_coverage: MissingCounts,
    /// Turns of which nothing is said. They count as neither full nor lacking.
    pub unknown: u64,
}

/// Number of entries that satisfy `p`. An entry without a fidelity does not.
pub open spec fn how_many(list: Seq<Option<Fidelity>>, p: spec_fn(Fidelity) -> bool) -> nat
    decreases list.len(),
{
    if list.len() == 0 {
        0
    } else {
        how_many(list.drop_last(), p) + (match list.last() {
            Some(f) => if p(f) {
                1nat
            } else {
                0nat
            },
            None => 0nat,
        })
    }
}

/// Number of entries of a class.
pub open spec fn of_class(list: Seq<Option<Fidelity>>, class: FidelityClass) -> nat {
    how_many(list, |f: Fidelity| f.class == class)
}

/// Number of entries of a granularity.
pub open spec fn of_granularity(list: Seq<Option<Fidelity>>, g: UsageGranularity) -> nat {
    how_many(list, |f: Fidelity| f.granularity == g)
}

/// Number of entries that lack a part.
pub open spec fn lacking(list: Seq<Option<Fidelity>>, part: spec_fn(Coverage) -> bool) -> nat {
    how_many(list, |f: Fidelity| !part(f.coverage))
}

/// Number of entries of which nothing is said.
pub open spec fn unknown_in(list: Seq<Option<Fidelity>>) -> nat
    decreases list.len(),
{
    if list.len() == 0 {
        0
    } else {
        unknown_in(list.drop_last()) + if list.last() is None {
            1nat
        } else {
            0nat
        }
    }
}

/// Whether `s` sums up the list.
pub open spec fn sums_up(s: FidelitySummary, list: Seq<Option<Fidelity>>) -> bool {
    &&& s.total == list.len()
    &&& s.unknown == unknown_in(list)
    &&& s.by_class.full == of_class(list, FidelityClass::Full)
    &&& s.by_class.usage_only == of_class(list, FidelityClass::UsageOnly)
    &&& s.by_class.aggregate_only == of_class(list, FidelityClass::AggregateOnly)
    &&& s.by_class.cost_only == of_class(list, FidelityClass::CostOnly)
    &&& s.by_class.partial == of_class(list, FidelityClass::Partial)
    &&& s.by_granularity.per_turn == of_granularity(list, UsageGranularity::PerTurn)
    &&& s.by_granularity.per_message == of_granularity(list, UsageGranularity::PerMessage)
    &&& s.by_granularity.per_session_aggregate == of_granularity(
        list,
        UsageGranularity::PerSessionAggregate,
    )
    &&& s.by_granularity.cost_only == of_granularity(list, UsageGranularity::CostOnly)
    &&& s.missing_coverage.has_input_tokens == lacking(list, |c: Coverage| c.has_input_tokens)
    &&& s.missing_coverage.has_output_tokens == lacking(list, |c: Coverage| c.has_output_tokens)
    &&& s.missing_coverage.has_reasoning_tokens == lacking(
        list,
        |c: Coverage| c.has_reasoning_tokens,
    )
    &&& s.missing_coverage.has_cache_read_tokens == lacking(
        list,
        |c: Coverage| c.has_cache_read_tokens,
    )
    &&& s.missing_coverage.has_cache_create_tokens == lacking(
        list,
        |c: Coverage| c.has_cache_create_tokens,
    )
    &&& s.missing_coverage.has_tool_calls == lacking(list, |c: Coverage| c.has_tool_calls)
    &&& s.missing_coverage.has_tool_result_events == lacking(
        list,
        |c: Coverage| c.has_tool_result_events,
    )
    &&& s.missing_coverage.has_session_relationships == lacking(
        list,
        |c: Coverage| c.has_session_relationships,
    )
    &&& s.missing_coverage.has_raw_content == lacking(list, |c: Coverage| c.has_raw_content)
}

/// The summary of no turns.
pub fn empty_fidelity_summary() -> (r: FidelitySummary)
    ensures
        sums_up(r, Seq::empty()),
{
    FidelitySummary {
        total: 0,
        by_class: ClassCounts {
            full: 0,
            usage_only: 0,
            aggregate_only: 0,
            cost_only: 0,
            partial: 0,
        },
        by_granularity: GranularityCounts {
            per_turn: 0,
            per_message: 0,
            per_session_aggregate: 0,
            cost_only: 0,
        },
        missing_coverage: MissingCounts {
            has_input_tokens: 0,
            has_output_tokens: 0,
            has_reasoning_tokens: 0,
            has_cache_read_tokens: 0,
            has_cache_create_tokens: 0,
            has_tool_calls: 0,
            has_tool_result_events: 0,
            has_session_relationships: 0,
            has_raw_content: 0,
        },
        unknown: 0,
    }
}

proof fn lemma_how_many(list: Seq<Option<Fidelity>>, p: spec_fn(Fidelity) -> bool)
    ensures
        how_many(list, p) <= list.len(),
    decreases list.len(),
{
    if list.len() > 0 {
        lemma_how_many(list.drop_last(), p);
    }
}

fn tally(n: u64, more: bool) -> (r: u64)
    requires
        n < u64::MAX,
    ensures
        r == n + if more {
            1int
        } else {
            0int
        },
{
    if more {
        n + 1
    } else {
        n
    }
}

fn add_entry(s: FidelitySummary, f: &Option<Fidelity>, Ghost(list): Ghost<Seq<Option<Fidelity>>>) -> (r:
    FidelitySummary)
    requires
        sums_up(s, list),
        list.len() < u64::MAX,
    ensures
        sums_up(r, list.push(*f)),
{
    let ghost next = list.push(*f);
    proof {
        assert(next.drop_last() =~= list);
        assert(next.last() == *f);
        assert forall|p: spec_fn(Fidelity) -> bool| #[trigger]
            how_many(list, p) <= list.len() by {
            lemma_how_many(list, p);
        }
        lemma_unknown(list);
    }
    match f {
        Some(f) => {
            let c = &f.coverage;
            let m = &s.missing_coverage;
            let g = &s.by_granularity;
            let d = &s.by_class;
            let k = f.class;
            FidelitySummary {
                total: s.total + 1,
                by_class: ClassCounts {
                    full: tally(d.full, k == FidelityClass::Full),
                    usage_only: tally(d.usage_only, k == FidelityClass::UsageOnly),
                    aggregate_only: tally(d.aggregate_only, k == FidelityClass::AggregateOnly),
                    cost_only: tally(d.cost_only, k == FidelityClass::CostOnly),
                    partial: tally(d.partial, k == FidelityClass::Partial),
                },
                by_granularity: GranularityCounts {
                    per_turn: tally(g.per_turn, f.granularity == UsageGranularity::PerTurn),
                    per_message: tally(
                        g.per_message,
                        f.granularity == UsageGranularity::PerMessage,
                    ),
                    per_session_aggregate: tally(
                        g.per_session_aggregate,
                        f.granularity == UsageGranularity::PerSessionAggregate,
                    ),
                    cost_only: tally(g.cost_only, f.granularity == UsageGranularity::CostOnly),
                },
                missing_coverage: MissingCounts {
                    has_input_tokens: tally(m.has_input_tokens, !c.has_input_tokens),
                    has_output_tokens: tally(m.has_output_tokens, !c.has_output_tokens),
                    has_reasoning_tokens: tally(m.has_reasoning_tokens, !c.has_reasoning_tokens),
                    has_cache_read_tokens: tally(m.has_cache_read_tokens, !c.has_cache_read_tokens),
                    has_cache_create_tokens: tally(
                        m.has_cache_create_tokens,
                        !c.has_cache_create_tokens,
                    ),
                    has_tool_calls: tally(m.has_tool_calls, !c.has_tool_calls),
                    has_tool_result_events: tally(
                        m.has_tool_result_events,
                        !c.has_tool_result_events,
                    ),
                    has_session_relationships: tally(
                        m.has_session_relationships,
                        !c.has_session_relationships,
                    ),
                    has_raw_content: tally(m.has_raw_content, !c.has_raw_content),
                },
                unknown: s.unknown,
            }
        },
        None => FidelitySummary { total: s.total + 1, unknown: s.unknown + 1, ..s },
    }
}

proof fn lemma_unknown(list: Seq<Option<Fidelity>>)
    ensures
        unknown_in(list) <= list.len(),
    decreases list.len(),
{
    if list.len() > 0 {
        lemma_unknown(list.drop_last());
    }
}

/// Sums up how well the entries of a list are recorded. The class that was
/// recorded is the one that counts.
pub fn summarize_fidelity_from_iter(list: &[Option<Fidelity>]) -> (r: FidelitySummary)
    ensures
        sums_up(r, list@),
{
    let mut out = empty_fidelity_summary();
    let mut i: usize = 0;
    assert(list@.take(0) =~= Seq::<Option<Fidelity>>::empty());
    while i < list.len()
        invariant
            i <= list@.len(),
            sums_up(out, list@.take(i as int)),
        decreases list@.len() - i,
    {
        out = add_entry(out, &list[i], Ghost(list@.take(i as int)));
        assert(list@.take(i + 1) =~= list@.take(i as int).push(list@[i as int]));
        i = i + 1;
    }
    assert(list@.take(i as int) =~= list@);
    out
}

/// How well each turn is recorded.
pub open spec fn fidelities(turns: Seq<TurnRecord>) -> Seq<Option<Fidelity>> {
    turns.map_values(|t: TurnRecord| t.fidelity)
}

/// Sums up how well the turns are recorded.
pub fn summarize_fidelity(turns: &[TurnRecord]) -> (r: FidelitySummary)
    ensures
        sums_up(r, fidelities(turns@)),
{
    let mut out = empty_fidelity_summary();
    let ghost list = fidelities(turns@);
    let mut i: usize = 0;
    assert(list.take(0) =~= Seq::<Option<Fidelity>>::empty());
    while i < turns.len()
        invariant
            i <= turns@.len(),
            list == fidelities(turns@),
            sums_up(out, list.take(i as int)),
        decreases turns@.len() - i,
    {
        out = add_entry(out, &turns[i].fidelity, Ghost(list.take(i as int)));
        assert(list.take(i + 1) =~= list.take(i as int).push(list[i as int]));
        i = i + 1;
    }
    assert(list.take(i as int) =~= list);
    out
}

/// Every turn counts in one class or as unknown, and in one granularity or as
/// unknown.
pub proof fn lemma_classes_cover(list: Seq<Option<Fidelity>>)
    ensures
        of_class(list, FidelityClass::Full) + of_class(list, FidelityClass::UsageOnly) + of_class(
            list,
            FidelityClass::AggregateOnly,
        ) + of_class(list, FidelityClass::CostOnly) + of_class(list, FidelityClass::Partial)
            + unknown_in(list) == list.len(),
        of_granularity(list, UsageGranularity::PerTurn) + of_granularity(
            list,
            UsageGranularity::PerMessage,
        ) + of_granularity(list, UsageGranularity::PerSessionAggregate) + of_granularity(
            list,
            UsageGranularity::CostOnly,
        ) + unknown_in(list) == list.len(),
    decreases list.len(),
{
    if list.len() > 0 {
        lemma_classes_cover(list.drop_last());
    }
}

/// The rank of a class, from the one that says least to the one that says most.
pub open spec fn rank(class: FidelityClass) -> int {
    match class {
        FidelityClass::CostOnly => 0,
        FidelityClass::AggregateOnly => 1,
        FidelityClass::Partial => 2,
        FidelityClass::UsageOnly => 3,
        FidelityClass::Full => 4,
    }
}

fn rank_of(class: FidelityClass) -> (r: u8)
    ensures
        r == rank(class),
{
    match class {
        FidelityClass::CostOnly => 0,
        FidelityClass::AggregateOnly => 1,
        FidelityClass::Partial => 2,
        FidelityClass::UsageOnly => 3,
        FidelityClass::Full => 4,
    }
}

/// Whether a turn is recorded at least as well as `minimum`. One of which
/// nothing is said passes.
pub fn has_minimum_fidelity(fidelity: Option<&Fidelity>, minimum: FidelityClass) -> (r: bool)
    ensures
        r == (match fidelity {
            Some(f) => rank(f.class) >= rank(minimum),
            None => true,
        }),
{
    match fidelity {
        Some(f) => rank_of(f.class) >= rank_of(minimum),
        None => true,
    }
}

/// A class is at least itself, and no two classes rank alike.
pub proof fn lemma_ranks(a: FidelityClass, b: FidelityClass)
    ensures
        rank(a) == rank(b) <==> a == b,
        0 <= rank(a) <= 4,
{
}

} // verus!
