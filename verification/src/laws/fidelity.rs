//! How well the turns are known.

use crate::fidelity;
use crate::fidelity::FidelitySummary;
use crate::records::{Coverage, Fidelity, FidelityClass, UsageGranularity};
use vstd::prelude::*;

verus! {

/// How many of the turns are known to be so.
pub open spec fn number(list: Seq<Option<Fidelity>>, so: spec_fn(Fidelity) -> bool) -> nat {
    list.filter(|f: Option<Fidelity>| f is Some && so(f->Some_0)).len()
}

proof fn lemma_how_many(
    list: Seq<Option<Fidelity>>,
    p: spec_fn(Fidelity) -> bool,
    q: spec_fn(Fidelity) -> bool,
)
    requires
        forall|f: Fidelity| #[trigger] p(f) == q(f),
    ensures
        fidelity::how_many(list, p) == number(list, q),
    decreases list.len(),
{
    reveal(Seq::filter);
    if list.len() > 0 {
        lemma_how_many(list.drop_last(), p, q);
        if list.last() is Some {
            assert(p(list.last()->Some_0) == q(list.last()->Some_0));
        }
    }
}

proof fn lemma_unknown(list: Seq<Option<Fidelity>>)
    ensures
        fidelity::unknown_in(list) == list.filter(|f: Option<Fidelity>| f is None).len(),
    decreases list.len(),
{
    reveal(Seq::filter);
    if list.len() > 0 {
        lemma_unknown(list.drop_last());
    }
}

/// A summary counts the turns by class and by granularity, and for each part of
/// a record the turns that lack it, each under its own name. A turn of which
/// nothing is known counts as unknown and nowhere else.
pub proof fn lemma_fidelity_counts(s: FidelitySummary, list: Seq<Option<Fidelity>>)
    requires
        fidelity::sums_up(s, list),
    ensures
        s.total == list.len(),
        s.unknown == list.filter(|f: Option<Fidelity>| f is None).len(),
        s.by_class.full == number(list, |f: Fidelity| f.class == FidelityClass::Full),
        s.by_class.usage_only == number(list, |f: Fidelity| f.class == FidelityClass::UsageOnly),
        s.by_class.aggregate_only == number(
            list,
            |f: Fidelity| f.class == FidelityClass::AggregateOnly,
        ),
        s.by_class.cost_only == number(list, |f: Fidelity| f.class == FidelityClass::CostOnly),
        s.by_class.partial == number(list, |f: Fidelity| f.class == FidelityClass::Partial),
        s.by_granularity.per_turn == number(
            list,
            |f: Fidelity| f.granularity == UsageGranularity::PerTurn,
        ),
        s.by_granularity.per_message == number(
            list,
            |f: Fidelity| f.granularity == UsageGranularity::PerMessage,
        ),
        s.by_granularity.per_session_aggregate == number(
            list,
            |f: Fidelity| f.granularity == UsageGranularity::PerSessionAggregate,
        ),
        s.by_granularity.cost_only == number(
            list,
            |f: Fidelity| f.granularity == UsageGranularity::CostOnly,
        ),
        s.missing_coverage.has_input_tokens == number(
            list,
            |f: Fidelity| !f.coverage.has_input_tokens,
        ),
        s.missing_coverage.has_output_tokens == number(
            list,
            |f: Fidelity| !f.coverage.has_output_tokens,
        ),
        s.missing_coverage.has_reasoning_tokens == number(
            list,
            |f: Fidelity| !f.coverage.has_reasoning_tokens,
        ),
        s.missing_coverage.has_cache_read_tokens == number(
            list,
            |f: Fidelity| !f.coverage.has_cache_read_tokens,
        ),
        s.missing_coverage.has_cache_create_tokens == number(
            list,
            |f: Fidelity| !f.coverage.has_cache_create_tokens,
        ),
        s.missing_coverage.has_tool_calls == number(
            list,
            |f: Fidelity| !f.coverage.has_tool_calls,
        ),
        s.missing_coverage.has_tool_result_events == number(
            list,
            |f: Fidelity| !f.coverage.has_tool_result_events,
        ),
        s.missing_coverage.has_session_relationships == number(
            list,
            |f: Fidelity| !f.coverage.has_session_relationships,
        ),
        s.missing_coverage.has_raw_content == number(
            list,
            |f: Fidelity| !f.coverage.has_raw_content,
        ),
{
    lemma_unknown(list);
    lemma_class(list, FidelityClass::Full);
    lemma_class(list, FidelityClass::UsageOnly);
    lemma_class(list, FidelityClass::AggregateOnly);
    lemma_class(list, FidelityClass::CostOnly);
    lemma_class(list, FidelityClass::Partial);
    lemma_granularity(list, UsageGranularity::PerTurn);
    lemma_granularity(list, UsageGranularity::PerMessage);
    lemma_granularity(list, UsageGranularity::PerSessionAggregate);
    lemma_granularity(list, UsageGranularity::CostOnly);
    lemma_part(list, |c: Coverage| c.has_input_tokens, |f: Fidelity| !f.coverage.has_input_tokens);
    lemma_part(
        list,
        |c: Coverage| c.has_output_tokens,
        |f: Fidelity| !f.coverage.has_output_tokens,
    );
    lemma_part(
        list,
        |c: Coverage| c.has_reasoning_tokens,
        |f: Fidelity| !f.coverage.has_reasoning_tokens,
    );
    lemma_part(
        list,
        |c: Coverage| c.has_cache_read_tokens,
        |f: Fidelity| !f.coverage.has_cache_read_tokens,
    );
    lemma_part(
        list,
        |c: Coverage| c.has_cache_create_tokens,
        |f: Fidelity| !f.coverage.has_cache_create_tokens,
    );
    lemma_part(list, |c: Coverage| c.has_tool_calls, |f: Fidelity| !f.coverage.has_tool_calls);
    lemma_part(
        list,
        |c: Coverage| c.has_tool_result_events,
        |f: Fidelity| !f.coverage.has_tool_result_events,
    );
    lemma_part(
        list,
        |c: Coverage| c.has_session_relationships,
        |f: Fidelity| !f.coverage.has_session_relationships,
    );
    lemma_part(list, |c: Coverage| c.has_raw_content, |f: Fidelity| !f.coverage.has_raw_content);
}

proof fn lemma_class(list: Seq<Option<Fidelity>>, class: FidelityClass)
    ensures
        fidelity::of_class(list, class) == number(list, |f: Fidelity| f.class == class),
{
    lemma_how_many(list, |f: Fidelity| f.class == class, |f: Fidelity| f.class == class);
}

proof fn lemma_granularity(list: Seq<Option<Fidelity>>, g: UsageGranularity)
    ensures
        fidelity::of_granularity(list, g) == number(list, |f: Fidelity| f.granularity == g),
{
    lemma_how_many(list, |f: Fidelity| f.granularity == g, |f: Fidelity| f.granularity == g);
}

proof fn lemma_part(
    list: Seq<Option<Fidelity>>,
    part: spec_fn(Coverage) -> bool,
    q: spec_fn(Fidelity) -> bool,
)
    requires
        forall|f: Fidelity| #[trigger] q(f) == !part(f.coverage),
    ensures
        fidelity::lacking(list, part) == number(list, q),
{
    let p = |f: Fidelity| !part(f.coverage);
    assert forall|f: Fidelity| #[trigger] p(f) == q(f) by {
        assert(q(f) == !part(f.coverage));
    }
    lemma_how_many(list, p, q);
}

/// The classes stand in one order: costs alone are the least, then sums, then
/// parts, then all usage, and everything is the most.
pub proof fn lemma_classes_rise()
    ensures
        fidelity::rank(FidelityClass::CostOnly) < fidelity::rank(FidelityClass::AggregateOnly),
        fidelity::rank(FidelityClass::AggregateOnly) < fidelity::rank(FidelityClass::Partial),
        fidelity::rank(FidelityClass::Partial) < fidelity::rank(FidelityClass::UsageOnly),
        fidelity::rank(FidelityClass::UsageOnly) < fidelity::rank(FidelityClass::Full),
{
}

} // verus!
