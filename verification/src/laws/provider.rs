//! Who serves a turn, and what each provider served.

use crate::groups;
use crate::outside;
use crate::provider;
use crate::provider::{CoverageField, ProviderAggregateRow, RuleView};
use crate::records::{SourceKind, TurnRecord};
use crate::text;
use vstd::prelude::*;

verus! {

/// Whether the model begins with the text.
pub open spec fn begins(model: Seq<char>, head: Seq<char>) -> bool {
    exists|rest: Seq<char>| #[trigger] (head + rest) == model
}

proof fn lemma_begins(model: Seq<char>, head: Seq<char>)
    ensures
        begins(model, head) <==> text::has_prefix(model, head),
{
    if text::has_prefix(model, head) {
        assert(head + model.skip(head.len() as int) =~= model);
    }
    if begins(model, head) {
        let rest = choose|rest: Seq<char>| #[trigger] (head + rest) == model;
        assert(model.take(head.len() as int) =~= head);
    }
}

proof fn lemma_matching(model: Seq<char>, rules: Seq<RuleView>, i: int)
    requires
        0 <= i <= rules.len(),
        forall|k: int| 0 <= k < i ==> !begins(model, (#[trigger] rules[k]).prefix),
        i < rules.len() ==> begins(model, rules[i].prefix),
    ensures
        provider::matching_rule(model, rules) == i,
    decreases rules.len(),
{
    if rules.len() > 0 {
        lemma_begins(model, rules[0].prefix);
        if i > 0 {
            assert(!begins(model, rules[0].prefix));
            let d = rules.drop_first();
            assert forall|k: int| 0 <= k < i - 1 implies !begins(
                model,
                (#[trigger] d[k]).prefix,
            ) by {
                assert(d[k] == rules[k + 1]);
            }
            lemma_matching(model, d, i - 1);
        }
    }
}

proof fn lemma_last_segment(s: Seq<char>)
    ensures
        forall|k: int|
            0 <= k < provider::last_segment(s).len() ==> #[trigger] provider::last_segment(s)[k]
                != '/',
        provider::last_segment(s).len() <= s.len(),
        provider::last_segment(s) == s.skip(s.len() - provider::last_segment(s).len()),
        provider::last_segment(s).len() < s.len() ==> s[s.len() - provider::last_segment(s).len()
            - 1] == '/',
    decreases s.len(),
{
    if s.len() > 0 && s.last() != '/' {
        let d = s.drop_last();
        lemma_last_segment(d);
        let r = provider::last_segment(s);
        assert(r =~= s.skip(s.len() - r.len())) by {
            let q = provider::last_segment(d);
            assert forall|k: int| 0 <= k < r.len() implies r[k] == s.skip(s.len() - r.len())[k] by {
                if k < q.len() {
                    assert(q[k] == d.skip(d.len() - q.len())[k]);
                }
            }
        }
    } else {
        assert(provider::last_segment(s) =~= s.skip(s.len() as int));
    }
}

/// The first rule whose prefix a model has says who serves it. The model is then
/// taken for what stands behind its last slash, or behind the prefix where there
/// is no slash after it.
pub proof fn lemma_first_rule_holds(
    model: Seq<char>,
    source: Option<SourceKind>,
    rules: Seq<RuleView>,
    i: int,
)
    requires
        0 <= i < rules.len(),
        forall|k: int| 0 <= k < i ==> !begins(model, (#[trigger] rules[k]).prefix),
        begins(model, rules[i].prefix),
    ensures
        ({
            let p = provider::provider_of(model, source, rules);
            let n = model.len() - p.normalized_model.len();
            &&& p.provider == rules[i].provider
            &&& p.matched_rule == Some(rules[i].id)
            &&& p.raw_model == model
            &&& n >= rules[i].prefix.len()
            &&& p.normalized_model == model.skip(n)
            &&& forall|k: int|
                0 <= k < p.normalized_model.len() ==> #[trigger] p.normalized_model[k] != '/'
            &&& n == rules[i].prefix.len() || model[n - 1] == '/'
        }),
{
    lemma_matching(model, rules, i);
    lemma_begins(model, rules[i].prefix);
    let rest = model.skip(rules[i].prefix.len() as int);
    lemma_last_segment(rest);
    let q = provider::last_segment(rest);
    assert(q =~= model.skip(model.len() - q.len()));
}

/// Models that are routed through Hugging Face, Fireworks or the prefix of its
/// own are served by Synthetic, whatever the source.
pub proof fn lemma_synthetic(model: Seq<char>, source: Option<SourceKind>)
    ensures
        begins(model, "hf:"@) || begins(model, "accounts/fireworks/models/"@) || begins(
            model,
            "synthetic/"@,
        ) <==> provider::provider_of(
            model,
            source,
            provider::standard_rules(),
        ).matched_rule is Some,
        provider::provider_of(model, source, provider::standard_rules()).matched_rule is Some
            ==> provider::provider_of(model, source, provider::standard_rules()).provider
            == "synthetic"@,
{
    let rules = provider::standard_rules();
    let i = if begins(model, rules[0].prefix) {
        0int
    } else if begins(model, rules[1].prefix) {
        1
    } else if begins(model, rules[2].prefix) {
        2
    } else {
        3
    };
    lemma_matching(model, rules, i);
}

proof fn lemma_slash(s: Seq<char>, n: int)
    requires
        0 <= n <= s.len(),
        forall|k: int| 0 <= k < n ==> #[trigger] s[k] != '/',
        n < s.len() ==> s[n] == '/',
    ensures
        provider::slash_at(s) == n,
    decreases s.len(),
{
    if n > 0 {
        assert(s[0] != '/');
        let d = s.drop_first();
        assert forall|k: int| 0 <= k < n - 1 implies #[trigger] d[k] != '/' by {
            assert(d[k] == s[k + 1]);
        }
        lemma_slash(d, n - 1);
    }
}

/// Where no rule holds, a model with a slash is served by what stands before the
/// first one, in small letters, and is called what stands behind it.
pub proof fn lemma_slashed_model(
    owner: Seq<char>,
    rest: Seq<char>,
    source: Option<SourceKind>,
    rules: Seq<RuleView>,
)
    requires
        owner.len() > 0,
        forall|k: int| 0 <= k < owner.len() ==> #[trigger] owner[k] != '/',
        forall|k: int|
            0 <= k < rules.len() ==> !begins(
                owner + seq!['/'] + rest,
                (#[trigger] rules[k]).prefix,
            ),
    ensures
        ({
            let p = provider::provider_of(owner + seq!['/'] + rest, source, rules);
            &&& p.provider == outside::lowercase(owner)
            &&& p.normalized_model == rest
            &&& p.matched_rule is None
        }),
{
    let model = owner + seq!['/'] + rest;
    lemma_matching(model, rules, rules.len() as int);
    assert forall|k: int| 0 <= k < owner.len() implies #[trigger] model[k] != '/' by {
        assert(model[k] == owner[k]);
    }
    lemma_slash(model, owner.len() as int);
    assert(model.take(owner.len() as int) =~= owner);
    assert(model.skip(owner.len() as int + 1) =~= rest);
}

/// Where no rule holds and the model has no slash, the source says who serves
/// it.
pub proof fn lemma_plain_model_by_source(
    model: Seq<char>,
    source: SourceKind,
    rules: Seq<RuleView>,
)
    requires
        forall|k: int| 0 <= k < model.len() ==> #[trigger] model[k] != '/',
        forall|k: int| 0 <= k < rules.len() ==> !begins(model, (#[trigger] rules[k]).prefix),
    ensures
        ({
            let p = provider::provider_of(model, Some(source), rules);
            let none = provider::provider_of(model, None, rules);
            &&& p.normalized_model == model
            &&& p.matched_rule is None
            &&& source == SourceKind::ClaudeCode || source == SourceKind::AnthropicApi
                ==> p.provider == "anthropic"@
            &&& source == SourceKind::Codex || source == SourceKind::OpenaiApi ==> p.provider
                == "openai"@
            &&& source == SourceKind::GeminiApi ==> p.provider == "google"@
            &&& source == SourceKind::Opencode ==> p.provider == "opencode"@
            &&& none.provider == "unknown"@
        }),
{
    lemma_matching(model, rules, rules.len() as int);
    lemma_slash(model, model.len() as int);
}

/// The numbers of the turns listed, added up.
pub open spec fn sum_of(
    turns: Seq<TurnRecord>,
    at: Seq<usize>,
    of: spec_fn(TurnRecord) -> int,
) -> int {
    at.fold_left(0int, |n: int, i: usize| n + of(turns[i as int]))
}

/// Totals are sums.
pub proof fn lemma_total(
    turns: Seq<TurnRecord>,
    at: Seq<usize>,
    of: spec_fn(TurnRecord) -> u64,
    to: spec_fn(TurnRecord) -> int,
)
    requires
        forall|t: TurnRecord| #[trigger] to(t) == of(t),
    ensures
        provider::total_of(turns, at, of) == sum_of(turns, at, to),
    decreases at.len(),
{
    if at.len() > 0 {
        lemma_total(turns, at.drop_last(), of, to);
        assert(to(turns[at.last() as int]) == of(turns[at.last() as int]));
    }
}

/// Each total adds up the counter of its own name.
pub proof fn lemma_usage(u: provider::UsageTotals, turns: Seq<TurnRecord>, at: Seq<usize>)
    requires
        provider::is_usage(u, turns, at),
    ensures
        u.input == sum_of(turns, at, |t: TurnRecord| t.usage.input as int),
        u.output == sum_of(turns, at, |t: TurnRecord| t.usage.output as int),
        u.reasoning == sum_of(turns, at, |t: TurnRecord| t.usage.reasoning as int),
        u.cache_read == sum_of(turns, at, |t: TurnRecord| t.usage.cache_read as int),
        u.cache_create_5m == sum_of(turns, at, |t: TurnRecord| t.usage.cache_create_5m as int),
        u.cache_create_1h == sum_of(turns, at, |t: TurnRecord| t.usage.cache_create_1h as int),
{
    lemma_total(
        turns,
        at,
        |t: TurnRecord| t.usage.input,
        |t: TurnRecord| t.usage.input as int,
    );
    lemma_total(
        turns,
        at,
        |t: TurnRecord| t.usage.output,
        |t: TurnRecord| t.usage.output as int,
    );
    lemma_total(
        turns,
        at,
        |t: TurnRecord| t.usage.reasoning,
        |t: TurnRecord| t.usage.reasoning as int,
    );
    lemma_total(
        turns,
        at,
        |t: TurnRecord| t.usage.cache_read,
        |t: TurnRecord| t.usage.cache_read as int,
    );
    lemma_total(
        turns,
        at,
        |t: TurnRecord| t.usage.cache_create_5m,
        |t: TurnRecord| t.usage.cache_create_5m as int,
    );
    lemma_total(
        turns,
        at,
        |t: TurnRecord| t.usage.cache_create_1h,
        |t: TurnRecord| t.usage.cache_create_1h as int,
    );
}

/// Who serves the turn; unknown where nobody is named.
pub open spec fn served_by(t: TurnRecord, rules: Seq<RuleView>, name: Seq<char>) -> bool {
    let p = provider::provider_of(t.model@, Some(t.source), rules).provider;
    if p == Seq::<char>::empty() {
        name == "unknown"@
    } else {
        name == p
    }
}

/// What [`provider::aggregate_by_provider`] makes of the turns.
pub open spec fn by_provider(
    r: Seq<ProviderAggregateRow>,
    turns: Seq<TurnRecord>,
    rules: Seq<RuleView>,
) -> bool {
    let g = groups::groups_of(provider::row_keys(turns, rules));
    &&& r.len() == g.len()
    &&& forall|i: int| 0 <= i < r.len() ==> provider::is_row(#[trigger] r[i], turns, g[i])
}

/// Whether the record of the turn gives the counter; one of which nothing is
/// said gives all.
pub open spec fn gives(t: TurnRecord, f: CoverageField) -> bool {
    t.fidelity matches Some(x) ==> match f {
        CoverageField::Input => x.coverage.has_input_tokens,
        CoverageField::Output => x.coverage.has_output_tokens,
        CoverageField::Reasoning => x.coverage.has_reasoning_tokens,
        CoverageField::CacheRead => x.coverage.has_cache_read_tokens,
        CoverageField::CacheCreate => x.coverage.has_cache_create_tokens,
    }
}

proof fn lemma_knowing(turns: Seq<TurnRecord>, at: Seq<usize>, f: CoverageField)
    ensures
        provider::knowing(turns, at, f) == at.filter(
            |i: usize| gives(turns[i as int], f),
        ).len(),
    decreases at.len(),
{
    reveal(Seq::filter);
    if at.len() > 0 {
        lemma_knowing(turns, at.drop_last(), f);
    }
}

/// Every turn is counted once, in the row of the provider that serves it. A row
/// adds up the counters of its turns, and says for each counter how many of the
/// turns give it.
pub proof fn lemma_rows(
    r: Seq<ProviderAggregateRow>,
    turns: Seq<TurnRecord>,
    rules: Seq<RuleView>,
)
    requires
        turns.len() <= usize::MAX,
        by_provider(r, turns, rules),
    ensures
        forall|p: int, name: Seq<char>|
            #![trigger served_by(turns[p], rules, name)]
            0 <= p < turns.len() && served_by(turns[p], rules, name) ==> exists|i: int|
                0 <= i < r.len() && (#[trigger] r[i]).provider@ == name
                    && r[i].cost_turns@.contains(p as usize),
        forall|i: int, k: int|
            #![trigger r[i].cost_turns@[k]]
            0 <= i < r.len() && 0 <= k < r[i].cost_turns@.len() ==> r[i].cost_turns@[k]
                < turns.len() && served_by(
                turns[r[i].cost_turns@[k] as int],
                rules,
                r[i].provider@,
            ),
        forall|i: int, j: int|
            0 <= i < j < r.len() ==> (#[trigger] r[i]).provider@ != (#[trigger] r[j]).provider@,
        forall|i: int|
            0 <= i < r.len() ==> (#[trigger] r[i]).turns == r[i].cost_turns@.len() && r[i].label@
                == r[i].provider@ && r[i].usage.input == sum_of(
                turns,
                r[i].cost_turns@,
                |t: TurnRecord| t.usage.input as int,
            ) && r[i].usage.output == sum_of(
                turns,
                r[i].cost_turns@,
                |t: TurnRecord| t.usage.output as int,
            ) && r[i].usage.reasoning == sum_of(
                turns,
                r[i].cost_turns@,
                |t: TurnRecord| t.usage.reasoning as int,
            ) && r[i].usage.cache_read == sum_of(
                turns,
                r[i].cost_turns@,
                |t: TurnRecord| t.usage.cache_read as int,
            ) && r[i].usage.cache_create_5m == sum_of(
                turns,
                r[i].cost_turns@,
                |t: TurnRecord| t.usage.cache_create_5m as int,
            ) && r[i].usage.cache_create_1h == sum_of(
                turns,
                r[i].cost_turns@,
                |t: TurnRecord| t.usage.cache_create_1h as int,
            ),
        forall|i: int|
            0 <= i < r.len() ==> ({
                let x = #[trigger] r[i];
                let given = |f: CoverageField|
                    x.cost_turns@.filter(|p: usize| gives(turns[p as int], f)).len();
                &&& x.coverage.input.known == given(CoverageField::Input)
                &&& x.coverage.output.known == given(CoverageField::Output)
                &&& x.coverage.reasoning.known == given(CoverageField::Reasoning)
                &&& x.coverage.cache_read.known == given(CoverageField::CacheRead)
                &&& x.coverage.cache_create.known == given(CoverageField::CacheCreate)
                &&& x.coverage.input.known + x.coverage.input.missing == x.turns
                &&& x.coverage.output.known + x.coverage.output.missing == x.turns
                &&& x.coverage.reasoning.known + x.coverage.reasoning.missing == x.turns
                &&& x.coverage.cache_read.known + x.coverage.cache_read.missing == x.turns
                &&& x.coverage.cache_create.known + x.coverage.cache_create.missing == x.turns
            }),
{
    let keys = provider::row_keys(turns, rules);
    let g = groups::groups_of(keys);
    let seen = groups::first_seen(keys);
    groups::lemma_first_seen(keys);
    assert forall|p: int| 0 <= p < turns.len() implies served_by(
        turns[p],
        rules,
        #[trigger] keys[p],
    ) by {
        let q = provider::provider_of(turns[p].model@, Some(turns[p].source), rules).provider;
        if q.len() == 0 {
            assert(q =~= Seq::<char>::empty());
        }
    }
    assert forall|i: int| 0 <= i < r.len() implies (#[trigger] r[i]).provider@ == seen[i]
        && r[i].cost_turns@ == groups::positions(keys, seen[i]) by {
        assert(provider::is_row(r[i], turns, g[i]));
    }
    assert forall|p: int, name: Seq<char>|
        #![trigger served_by(turns[p], rules, name)]
        0 <= p < turns.len() && served_by(turns[p], rules, name) implies exists|i: int|
        0 <= i < r.len() && (#[trigger] r[i]).provider@ == name && r[i].cost_turns@.contains(
            p as usize,
        ) by {
        assert(served_by(turns[p], rules, keys[p]));
        assert(keys[p] == name);
        assert(keys.contains(name));
        assert(seen.contains(name));
        let i = choose|i: int| 0 <= i < seen.len() && seen[i] == name;
        groups::lemma_positions(keys, name);
        assert(r[i].provider@ == name);
    }
    assert forall|i: int, k: int|
        #![trigger r[i].cost_turns@[k]]
        0 <= i < r.len() && 0 <= k < r[i].cost_turns@.len() implies r[i].cost_turns@[k]
        < turns.len() && served_by(turns[r[i].cost_turns@[k] as int], rules, r[i].provider@) by {
        groups::lemma_positions(keys, seen[i]);
        let p = groups::positions(keys, seen[i])[k];
        assert(p < keys.len() && keys[p as int] == seen[i]);
        assert(served_by(turns[p as int], rules, keys[p as int]));
    }
    assert forall|i: int, j: int| 0 <= i < j < r.len() implies (#[trigger] r[i]).provider@ != (
    #[trigger] r[j]).provider@ by {
        assert(seen[i] != seen[j]);
    }
    assert forall|i: int| 0 <= i < r.len() implies provider::is_usage(
        (#[trigger] r[i]).usage,
        turns,
        r[i].cost_turns@,
    ) && r[i].turns == r[i].cost_turns@.len() && r[i].label@ == r[i].provider@ by {
        assert(provider::is_row(r[i], turns, g[i]));
    }
    assert forall|i: int| 0 <= i < r.len() implies (#[trigger] r[i]).usage.input == sum_of(
        turns,
        r[i].cost_turns@,
        |t: TurnRecord| t.usage.input as int,
    ) && r[i].usage.output == sum_of(
        turns,
        r[i].cost_turns@,
        |t: TurnRecord| t.usage.output as int,
    ) && r[i].usage.reasoning == sum_of(
        turns,
        r[i].cost_turns@,
        |t: TurnRecord| t.usage.reasoning as int,
    ) && r[i].usage.cache_read == sum_of(
        turns,
        r[i].cost_turns@,
        |t: TurnRecord| t.usage.cache_read as int,
    ) && r[i].usage.cache_create_5m == sum_of(
        turns,
        r[i].cost_turns@,
        |t: TurnRecord| t.usage.cache_create_5m as int,
    ) && r[i].usage.cache_create_1h == sum_of(
        turns,
        r[i].cost_turns@,
        |t: TurnRecord| t.usage.cache_create_1h as int,
    ) by {
        lemma_usage(r[i].usage, turns, r[i].cost_turns@);
    }
    assert forall|i: int| 0 <= i < r.len() implies ({
        let x = #[trigger] r[i];
        let given = |f: CoverageField|
            x.cost_turns@.filter(|p: usize| gives(turns[p as int], f)).len();
        &&& x.coverage.input.known == given(CoverageField::Input)
        &&& x.coverage.output.known == given(CoverageField::Output)
        &&& x.coverage.reasoning.known == given(CoverageField::Reasoning)
        &&& x.coverage.cache_read.known == given(CoverageField::CacheRead)
        &&& x.coverage.cache_create.known == given(CoverageField::CacheCreate)
        &&& x.coverage.input.known + x.coverage.input.missing == x.turns
        &&& x.coverage.output.known + x.coverage.output.missing == x.turns
        &&& x.coverage.reasoning.known + x.coverage.reasoning.missing == x.turns
        &&& x.coverage.cache_read.known + x.coverage.cache_read.missing == x.turns
        &&& x.coverage.cache_create.known + x.coverage.cache_create.missing == x.turns
    }) by {
        let x = r[i];
        assert(provider::is_row(x, turns, g[i]));
        assert(g[i].1 == x.cost_turns@);
        assert(x.coverage.at(CoverageField::Input) == x.coverage.input);
        assert(x.coverage.at(CoverageField::Output) == x.coverage.output);
        assert(x.coverage.at(CoverageField::Reasoning) == x.coverage.reasoning);
        assert(x.coverage.at(CoverageField::CacheRead) == x.coverage.cache_read);
        assert(x.coverage.at(CoverageField::CacheCreate) == x.coverage.cache_create);
        lemma_knowing(turns, x.cost_turns@, CoverageField::Input);
        lemma_knowing(turns, x.cost_turns@, CoverageField::Output);
        lemma_knowing(turns, x.cost_turns@, CoverageField::Reasoning);
        lemma_knowing(turns, x.cost_turns@, CoverageField::CacheRead);
        lemma_knowing(turns, x.cost_turns@, CoverageField::CacheCreate);
    }
}

} // verus!
