//! The provider behind a turn, and turns added up by provider.

use crate::attempts;
use crate::groups;
use crate::groups::Group;
use crate::order;
use crate::outside;
use crate::records::{Coverage, SourceKind, TurnRecord};
use crate::streaks;
use crate::text;
use vstd::prelude::*;

verus! {

/// A rule that names the provider of the models with a prefix.
#[derive(Debug, Clone, PartialEq, Eq)]
pub struct ProviderRule {
    pub id: String,
    pub prefix: String,
    pub provider: String,
}

/// What the rules say of a model.
#[derive(Debug, Clone, PartialEq, Eq)]
pub struct ResolvedProvider {
    /// The provider, where a rule names one.
    pub provider: Option<String>,
    pub normalized_model: String,
    pub matched_rule: Option<String>,
}

/// The provider of a turn.
#[derive(Debug, Clone, PartialEq, Eq)]
pub struct TurnProvider {
    pub provider: String,
    pub raw_model: String,
    pub normalized_model: String,
    pub matched_rule: Option<String>,
}

/// What a [`TurnProvider`] says.
#[verifier::ext_equal]
pub struct ProviderView {
    pub provider: Seq<char>,
    pub raw_model: Seq<char>,
    pub normalized_model: Seq<char>,
    pub matched_rule: Option<Seq<char>>,
}

impl View for TurnProvider {
    type V = ProviderView;

    open spec fn view(&self) -> ProviderView {
        ProviderView {
            provider: self.provider@,
            raw_model: self.raw_model@,
            normalized_model: self.normalized_model@,
            matched_rule: text::opt_view(self.matched_rule),
        }
    }
}

/// A rule as character sequences: its id, its prefix and its provider.
#[verifier::ext_equal]
pub struct RuleView {
    pub id: Seq<char>,
    pub prefix: Seq<char>,
    pub provider: Seq<char>,
}

/// What the rules say.
pub open spec fn rule_views(rules: Seq<ProviderRule>) -> Seq<RuleView> {
    rules.map_values(
        |r: ProviderRule| RuleView { id: r.id@, prefix: r.prefix@, provider: r.provider@ },
    )
}

/// The rules for models that a router serves under a prefix of its own.
pub open spec fn standard_rules() -> Seq<RuleView> {
    seq![
        RuleView {
            id: "synthetic-huggingface"@,
            prefix: "hf:"@,
            provider: "synthetic"@,
        },
        RuleView {
            id: "synthetic-fireworks"@,
            prefix: "accounts/fireworks/models/"@,
            provider: "synthetic"@,
        },
        RuleView { id: "synthetic-prefix"@, prefix: "synthetic/"@, provider: "synthetic"@ },
    ]
}

fn make_rule(id: &str, prefix: &str, provider: &str) -> (r: ProviderRule)
    ensures
        r.id@ == id@,
        r.prefix@ == prefix@,
        r.provider@ == provider@,
{
    ProviderRule { id: id.to_owned(), prefix: prefix.to_owned(), provider: provider.to_owned() }
}

/// The rules for models that a router serves under a prefix of its own.
pub fn default_rules() -> (r: Vec<ProviderRule>)
    ensures
        rule_views(r@) == standard_rules(),
{
    let mut out: Vec<ProviderRule> = Vec::new();
    out.push(make_rule("synthetic-huggingface", "hf:", "synthetic"));
    out.push(make_rule("synthetic-fireworks", "accounts/fireworks/models/", "synthetic"));
    out.push(make_rule("synthetic-prefix", "synthetic/", "synthetic"));
    assert(rule_views(out@) =~= standard_rules());
    out
}

/// The position of the first slash; the length where there is none.
pub open spec fn slash_at(s: Seq<char>) -> int
    decreases s.len(),
{
    if s.len() == 0 || s[0] == '/' {
        0
    } else {
        1 + slash_at(s.drop_first())
    }
}

/// What stands behind the last slash.
pub open spec fn last_segment(s: Seq<char>) -> Seq<char>
    decreases s.len(),
{
    if s.len() == 0 || s.last() == '/' {
        Seq::empty()
    } else {
        last_segment(s.drop_last()).push(s.last())
    }
}

/// The model without what stands before its first slash and the slash.
pub open spec fn without_provider(model: Seq<char>) -> Seq<char> {
    if slash_at(model) < model.len() {
        model.skip(slash_at(model) + 1)
    } else {
        model
    }
}

/// The first rule whose prefix the model has; the length where there is none.
pub open spec fn matching_rule(model: Seq<char>, rules: Seq<RuleView>) -> int
    decreases rules.len(),
{
    if rules.len() == 0 || text::has_prefix(model, rules[0].prefix) {
        0
    } else {
        1 + matching_rule(model, rules.drop_first())
    }
}

/// The model that the rules take a model for: its last segment where one of
/// them matches, else the model itself.
pub open spec fn reattributed_model(model: Seq<char>, rules: Seq<RuleView>) -> Seq<char> {
    let at = matching_rule(model, rules);
    if at < rules.len() {
        last_segment(model.skip(rules[at].prefix.len() as int))
    } else {
        model
    }
}

/// The provider that a harness implies.
pub open spec fn source_provider(source: SourceKind) -> Seq<char> {
    match source {
        SourceKind::ClaudeCode => "anthropic"@,
        SourceKind::AnthropicApi => "anthropic"@,
        SourceKind::Codex => "openai"@,
        SourceKind::OpenaiApi => "openai"@,
        SourceKind::GeminiApi => "google"@,
        SourceKind::Opencode => "opencode"@,
    }
}

/// The provider of a model: what the rules say, or else the prefix of the
/// model, or else what its source implies.
pub open spec fn provider_of(
    model: Seq<char>,
    source: Option<SourceKind>,
    rules: Seq<RuleView>,
) -> ProviderView {
    let at = matching_rule(model, rules);
    if at < rules.len() {
        ProviderView {
            provider: rules[at].provider,
            raw_model: model,
            normalized_model: reattributed_model(model, rules),
            matched_rule: Some(rules[at].id),
        }
    } else if 0 < slash_at(model) < model.len() {
        ProviderView {
            provider: outside::lowercase(model.take(slash_at(model))),
            raw_model: model,
            normalized_model: without_provider(model),
            matched_rule: None,
        }
    } else {
        ProviderView {
            provider: match source {
                Some(s) => source_provider(s),
                None => "unknown"@,
            },
            raw_model: model,
            normalized_model: model,
            matched_rule: None,
        }
    }
}

fn find_slash(s: &Vec<char>) -> (r: usize)
    ensures
        r == slash_at(s@),
        r <= s@.len(),
{
    let mut i: usize = 0;
    assert(s@.skip(0) =~= s@);
    while i < s.len()
        invariant
            i <= s@.len(),
            slash_at(s@) == i + slash_at(s@.skip(i as int)),
        decreases s@.len() - i,
    {
        assert(s@.skip(i as int)[0] == s@[i as int]);
        if s[i] == '/' {
            return i;
        }
        assert(s@.skip(i as int).drop_first() =~= s@.skip(i + 1));
        i = i + 1;
    }
    i
}

fn find_last_segment(s: &Vec<char>, lo: usize) -> (r: String)
    requires
        lo <= s@.len(),
    ensures
        r@ == last_segment(s@.skip(lo as int)),
{
    let ghost all = s@.skip(lo as int);
    let n: usize = s.len();
    let mut i: usize = n;
    assert(all.subrange(n - lo, n - lo) =~= Seq::<char>::empty());
    assert(all.take(n - lo) =~= all);
    assert(last_segment(all) =~= last_segment(all.take(n - lo)) + all.subrange(n - lo, n - lo));
    while i > lo && s[i - 1] != '/'
        invariant
            lo <= i <= n,
            n == s@.len(),
            all == s@.skip(lo as int),
            last_segment(all) == last_segment(all.take(i - lo)) + all.subrange(i - lo, n - lo),
        ensures
            lo <= i <= n,
            last_segment(all) == all.subrange(i - lo, n - lo),
        decreases i,
    {
        proof {
            let t = all.take(i - lo);
            assert(t.last() == s@[i - 1]);
            assert(t.drop_last() =~= all.take(i - 1 - lo));
            assert(last_segment(t) + all.subrange(i - lo, n - lo) =~= last_segment(
                all.take(i - 1 - lo),
            ) + all.subrange(i - 1 - lo, n - lo));
        }
        i = i - 1;
        proof {
            let t = all.take(i - lo);
            if i == lo || t.last() == '/' {
                assert(last_segment(t) + all.subrange(i - lo, n - lo) =~= all.subrange(
                    i - lo,
                    n - lo,
                ));
            }
            if i > lo {
                assert(t.last() == s@[i - 1]);
            }
        }
    }
    assert(all.subrange(i - lo, n - lo) =~= s@.subrange(i as int, n as int));
    text::string_of(s, i, n)
}

fn find_matching_rule(model: &str, rules: &[ProviderRule]) -> (r: usize)
    ensures
        r == matching_rule(model@, rule_views(rules@)),
        r <= rules@.len(),
        r < rules@.len() ==> text::has_prefix(model@, rules@[r as int].prefix@),
{
    let ghost all = rule_views(rules@);
    let mut i: usize = 0;
    assert(all.skip(0) =~= all);
    while i < rules.len()
        invariant
            i <= rules@.len(),
            all == rule_views(rules@),
            matching_rule(model@, all) == i + matching_rule(model@, all.skip(i as int)),
        decreases rules@.len() - i,
    {
        assert(all.skip(i as int)[0] == all[i as int]);
        if text::starts_with(model, rules[i].prefix.as_str()) {
            return i;
        }
        assert(all.skip(i as int).drop_first() =~= all.skip(i + 1));
        i = i + 1;
    }
    i
}

/// What the rules say of a model.
pub fn resolve_provider_with_rules(model: &str, rules: &[ProviderRule]) -> (r: ResolvedProvider)
    ensures
        ({
            let rv = rule_views(rules@);
            let at = matching_rule(model@, rv);
            &&& r.normalized_model@ == reattributed_model(model@, rv)
            &&& text::opt_view(r.provider) == (if at < rv.len() {
                Some(rv[at].provider)
            } else {
                None
            })
            &&& text::opt_view(r.matched_rule) == (if at < rv.len() {
                Some(rv[at].id)
            } else {
                None
            })
        }),
{
    let at: usize = find_matching_rule(model, rules);
    assert(rule_views(rules@).len() == rules@.len());
    if at < rules.len() {
        let rule = &rules[at];
        let cs = text::chars_of(model);
        let n: usize = text::chars_of(rule.prefix.as_str()).len();
        assert(rule_views(rules@)[at as int].prefix == rule.prefix@);
        ResolvedProvider {
            provider: Some(rule.provider.clone()),
            normalized_model: find_last_segment(&cs, n),
            matched_rule: Some(rule.id.clone()),
        }
    } else {
        ResolvedProvider { provider: None, normalized_model: model.to_owned(), matched_rule: None }
    }
}

/// The model without the provider in front of it.
pub fn strip_provider_prefix(model: &str) -> (r: String)
    ensures
        r@ == without_provider(model@),
{
    let cs = text::chars_of(model);
    let at: usize = find_slash(&cs);
    if at < cs.len() {
        assert(cs@.subrange(at + 1, cs@.len() as int) =~= cs@.skip(at + 1));
        text::string_of(&cs, at + 1, cs.len())
    } else {
        model.to_owned()
    }
}

fn provider_from_source(source: SourceKind) -> (r: String)
    ensures
        r@ == source_provider(source),
{
    match source {
        SourceKind::ClaudeCode => "anthropic".to_owned(),
        SourceKind::AnthropicApi => "anthropic".to_owned(),
        SourceKind::Codex => "openai".to_owned(),
        SourceKind::OpenaiApi => "openai".to_owned(),
        SourceKind::GeminiApi => "google".to_owned(),
        SourceKind::Opencode => "opencode".to_owned(),
    }
}

fn provider_from_model_prefix(model: &str) -> (r: Option<String>)
    ensures
        text::opt_view(r) == (if 0 < slash_at(model@) < model@.len() {
            Some(outside::lowercase(model@.take(slash_at(model@))))
        } else {
            None
        }),
{
    let cs = text::chars_of(model);
    let at: usize = find_slash(&cs);
    if at == 0 || at >= cs.len() {
        return None;
    }
    let head = text::string_of(&cs, 0, at);
    assert(cs@.subrange(0, at as int) =~= cs@.take(at as int));
    Some(outside::to_lowercase(head.as_str()))
}

/// The provider of a model under the rules.
pub fn provider_for_model_with_rules(
    model: &str,
    source: Option<SourceKind>,
    rules: &[ProviderRule],
) -> (r: TurnProvider)
    ensures
        r@ == provider_of(model@, source, rule_views(rules@)),
{
    let resolved = resolve_provider_with_rules(model, rules);
    match resolved.provider {
        Some(provider) => {
            return TurnProvider {
                provider,
                raw_model: model.to_owned(),
                normalized_model: resolved.normalized_model,
                matched_rule: resolved.matched_rule,
            };
        },
        None => {},
    }
    match provider_from_model_prefix(model) {
        Some(provider) => {
            return TurnProvider {
                provider,
                raw_model: model.to_owned(),
                normalized_model: strip_provider_prefix(model),
                matched_rule: None,
            };
        },
        None => {},
    }
    TurnProvider {
        provider: match source {
            Some(s) => provider_from_source(s),
            None => "unknown".to_owned(),
        },
        raw_model: model.to_owned(),
        normalized_model: model.to_owned(),
        matched_rule: None,
    }
}

/// The provider of a model.
pub fn provider_for_model(model: &str, source: Option<SourceKind>) -> (r: TurnProvider)
    ensures
        r@ == provider_of(model@, source, standard_rules()),
{
    let rules = default_rules();
    provider_for_model_with_rules(model, source, rules.as_slice())
}

/// The provider of a turn under the rules.
pub fn provider_for_with_rules(turn: &TurnRecord, rules: &[ProviderRule]) -> (r: TurnProvider)
    ensures
        r@ == provider_of(turn.model@, Some(turn.source), rule_views(rules@)),
{
    provider_for_model_with_rules(turn.model.as_str(), Some(turn.source), rules)
}

/// The provider of a turn.
pub fn provider_for(turn: &TurnRecord) -> (r: TurnProvider)
    ensures
        r@ == provider_of(turn.model@, Some(turn.source), standard_rules()),
{
    let rules = default_rules();
    provider_for_with_rules(turn, rules.as_slice())
}

/// The provider of a turn. Another name for [`provider_for`].
pub fn provider_for_turn(turn: &TurnRecord) -> (r: TurnProvider)
    ensures
        r@ == provider_of(turn.model@, Some(turn.source), standard_rules()),
{
    provider_for(turn)
}

/// The provider of a turn. Another name for [`provider_for`].
pub fn resolve_turn_provider(turn: &TurnRecord) -> (r: TurnProvider)
    ensures
        r@ == provider_of(turn.model@, Some(turn.source), standard_rules()),
{
    provider_for(turn)
}

/// Anything with the model and the source of a turn.
pub trait AsTurnLike: Sized {
    /// The model.
    spec fn model_view(&self) -> Seq<char>;

    /// The source.
    spec fn source_view(&self) -> SourceKind;

    fn model_str(&self) -> (r: &str)
        ensures
            r@ == self.model_view(),
    ;

    fn source_kind(&self) -> (r: SourceKind)
        ensures
            r == self.source_view(),
    ;
}

impl AsTurnLike for TurnRecord {
    open spec fn model_view(&self) -> Seq<char> {
        self.model@
    }

    open spec fn source_view(&self) -> SourceKind {
        self.source
    }

    fn model_str(&self) -> (r: &str) {
        self.model.as_str()
    }

    fn source_kind(&self) -> (r: SourceKind) {
        self.source
    }
}

/// Whether the provider of `t` is, in lower case, among the names.
pub open spec fn is_served_by<T: AsTurnLike>(
    t: T,
    names: Seq<Seq<char>>,
    rules: Seq<RuleView>,
) -> bool {
    names.contains(
        outside::lowercase(
            provider_of(t.model_view(), Some(t.source_view()), rules).provider,
        ),
    )
}

/// The references as the values that they point to.
pub open spec fn targets<T>(v: Seq<&T>) -> Seq<T> {
    v.map_values(|x: &T| *x)
}

/// The turns whose provider is among the names of the filter; all of them where
/// there is no filter.
pub fn filter_turns_by_provider_with_rules<'a, T: AsTurnLike>(
    turns: &'a [T],
    filter: Option<&Vec<String>>,
    rules: &[ProviderRule],
) -> (r: Vec<&'a T>)
    ensures
        targets(r@) == (match filter {
            Some(names) => streaks::pick(
                turns@,
                |t: T| is_served_by(t, text::views(names@), rule_views(rules@)),
            ),
            None => turns@,
        }),
{
    let mut out: Vec<&'a T> = Vec::new();
    let mut i: usize = 0;
    assert(targets(out@) =~= Seq::<T>::empty());
    assert(turns@.take(0) =~= Seq::<T>::empty());
    match filter {
        None => {
            while i < turns.len()
                invariant
                    i <= turns@.len(),
                    targets(out@) == turns@.take(i as int),
                decreases turns@.len() - i,
            {
                let ghost before = targets(out@);
                out.push(&turns[i]);
                assert(targets(out@) =~= before.push(turns@[i as int]));
                assert(turns@.take(i + 1) =~= turns@.take(i as int).push(turns@[i as int]));
                i = i + 1;
            }
            assert(turns@.take(i as int) =~= turns@);
        },
        Some(names) => {
            let ghost p = |t: T| is_served_by(t, text::views(names@), rule_views(rules@));
            while i < turns.len()
                invariant
                    i <= turns@.len(),
                    p == (|t: T| is_served_by(t, text::views(names@), rule_views(rules@))),
                    targets(out@) == streaks::pick(turns@.take(i as int), p),
                decreases turns@.len() - i,
            {
                assert(turns@.take(i + 1).drop_last() =~= turns@.take(i as int));
                assert(turns@.take(i + 1).last() == turns@[i as int]);
                let t = &turns[i];
                let resolved = provider_for_model_with_rules(
                    t.model_str(),
                    Some(t.source_kind()),
                    rules,
                );
                let name = outside::to_lowercase(resolved.provider.as_str());
                if groups::holds(names, name.as_str()) {
                    let ghost before = targets(out@);
                    out.push(t);
                    assert(targets(out@) =~= before.push(turns@[i as int]));
                }
                i = i + 1;
            }
            assert(turns@.take(i as int) =~= turns@);
        },
    }
    out
}

/// The turns whose provider is among the names of the filter; all of them where
/// there is no filter.
pub fn filter_turns_by_provider<'a, T: AsTurnLike>(
    turns: &'a [T],
    filter: Option<&Vec<String>>,
) -> (r: Vec<&'a T>)
    ensures
        targets(r@) == (match filter {
            Some(names) => streaks::pick(
                turns@,
                |t: T| is_served_by(t, text::views(names@), standard_rules()),
            ),
            None => turns@,
        }),
{
    let rules = default_rules();
    filter_turns_by_provider_with_rules(turns, filter, rules.as_slice())
}

/// For how many turns a number is known, and for how many it is missing.
#[derive(Debug, Clone, Copy, PartialEq, Eq, Structural, Default)]
pub struct FieldCoverage {
    pub known: u64,
    pub missing: u64,
}

/// The numbers of a turn.
#[derive(Debug, Clone, Copy, PartialEq, Eq, Structural, Hash)]
pub enum CoverageField {
    Input,
    Output,
    Reasoning,
    CacheRead,
    CacheCreate,
}

/// For how many turns each number is known.
#[derive(Debug, Clone, Copy, PartialEq, Eq, Structural, Default)]
pub struct RowCoverage {
    pub input: FieldCoverage,
    pub output: FieldCoverage,
    pub reasoning: FieldCoverage,
    pub cache_read: FieldCoverage,
    pub cache_create: FieldCoverage,
}

impl RowCoverage {
    /// The coverage of one number.
    pub open spec fn at(self, f: CoverageField) -> FieldCoverage {
        match f {
            CoverageField::Input => self.input,
            CoverageField::Output => self.output,
            CoverageField::Reasoning => self.reasoning,
            CoverageField::CacheRead => self.cache_read,
            CoverageField::CacheCreate => self.cache_create,
        }
    }

    /// The coverage of one number, to be changed.
    pub fn field_mut(&mut self, f: CoverageField) -> (r: &mut FieldCoverage)
        ensures
            *r == old(self).at(f),
            final(self).at(f) == *final(r),
            forall|g: CoverageField| g != f ==> #[trigger] final(self).at(g) == old(self).at(g),
    {
        match f {
            CoverageField::Input => &mut self.input,
            CoverageField::Output => &mut self.output,
            CoverageField::Reasoning => &mut self.reasoning,
            CoverageField::CacheRead => &mut self.cache_read,
            CoverageField::CacheCreate => &mut self.cache_create,
        }
    }

    /// The coverage of one number.
    pub fn field(&self, f: CoverageField) -> (r: &FieldCoverage)
        ensures
            *r == self.at(f),
    {
        match f {
            CoverageField::Input => &self.input,
            CoverageField::Output => &self.output,
            CoverageField::Reasoning => &self.reasoning,
            CoverageField::CacheRead => &self.cache_read,
            CoverageField::CacheCreate => &self.cache_create,
        }
    }
}

/// Whether a turn reports the number. One of which nothing is said does.
pub open spec fn is_known(t: TurnRecord, f: CoverageField) -> bool {
    match t.fidelity {
        None => true,
        Some(fid) => match f {
            CoverageField::Input => fid.coverage.has_input_tokens,
            CoverageField::Output => fid.coverage.has_output_tokens,
            CoverageField::Reasoning => fid.coverage.has_reasoning_tokens,
            CoverageField::CacheRead => fid.coverage.has_cache_read_tokens,
            CoverageField::CacheCreate => fid.coverage.has_cache_create_tokens,
        },
    }
}

/// The turns at `members` that report the number.
pub open spec fn knowing(turns: Seq<TurnRecord>, members: Seq<usize>, f: CoverageField) -> nat
    decreases members.len(),
{
    if members.len() == 0 {
        0
    } else {
        knowing(turns, members.drop_last(), f) + if is_known(turns[members.last() as int], f) {
            1nat
        } else {
            0nat
        }
    }
}

/// Tokens of many turns.
#[derive(Debug, Clone, Copy, PartialEq, Eq, Structural)]
pub struct UsageTotals {
    pub input: u128,
    pub output: u128,
    pub reasoning: u128,
    pub cache_read: u128,
    pub cache_create_5m: u128,
    pub cache_create_1h: u128,
}

/// What `of` gives for the turns at `members`, added up.
pub open spec fn total_of(
    turns: Seq<TurnRecord>,
    members: Seq<usize>,
    of: spec_fn(TurnRecord) -> u64,
) -> nat
    decreases members.len(),
{
    if members.len() == 0 {
        0
    } else {
        total_of(turns, members.drop_last(), of) + of(turns[members.last() as int]) as nat
    }
}

/// Whether `u` is the usage of the turns at `members`.
pub open spec fn is_usage(u: UsageTotals, turns: Seq<TurnRecord>, members: Seq<usize>) -> bool {
    &&& u.input == total_of(turns, members, |t: TurnRecord| t.usage.input)
    &&& u.output == total_of(turns, members, |t: TurnRecord| t.usage.output)
    &&& u.reasoning == total_of(turns, members, |t: TurnRecord| t.usage.reasoning)
    &&& u.cache_read == total_of(turns, members, |t: TurnRecord| t.usage.cache_read)
    &&& u.cache_create_5m == total_of(turns, members, |t: TurnRecord| t.usage.cache_create_5m)
    &&& u.cache_create_1h == total_of(turns, members, |t: TurnRecord| t.usage.cache_create_1h)
}

/// The turns of one provider.
#[derive(Debug, Clone, PartialEq)]
pub struct ProviderAggregateRow {
    pub provider: String,
    pub label: String,
    pub turns: u64,
    pub usage: UsageTotals,
    /// The positions of the turns whose cost this is, in order.
    pub cost_turns: Vec<usize>,
    pub coverage: RowCoverage,
}

/// The provider that a turn is added to.
pub open spec fn row_key(t: TurnRecord, rules: Seq<RuleView>) -> Seq<char> {
    let p = provider_of(t.model@, Some(t.source), rules).provider;
    if p.len() == 0 {
        "unknown"@
    } else {
        p
    }
}

/// The provider of each turn.
pub open spec fn row_keys(turns: Seq<TurnRecord>, rules: Seq<RuleView>) -> Seq<Seq<char>> {
    turns.map_values(|t: TurnRecord| row_key(t, rules))
}

/// Whether `r` adds up the turns of the group `g`.
pub open spec fn is_row(
    r: ProviderAggregateRow,
    turns: Seq<TurnRecord>,
    g: (Seq<char>, Seq<usize>),
) -> bool {
    &&& r.provider@ == g.0
    &&& r.label@ == g.0
    &&& r.turns == g.1.len()
    &&& is_usage(r.usage, turns, g.1)
    &&& r.cost_turns@ == g.1
    &&& forall|f: CoverageField|
        (#[trigger] r.coverage.at(f)).known == knowing(turns, g.1, f) && r.coverage.at(f).known
            + r.coverage.at(f).missing == g.1.len()
}

fn check_known(t: &TurnRecord, f: CoverageField) -> (r: bool)
    ensures
        r == is_known(*t, f),
{
    match &t.fidelity {
        None => true,
        Some(fid) => {
            let c: &Coverage = &fid.coverage;
            match f {
                CoverageField::Input => c.has_input_tokens,
                CoverageField::Output => c.has_output_tokens,
                CoverageField::Reasoning => c.has_reasoning_tokens,
                CoverageField::CacheRead => c.has_cache_read_tokens,
                CoverageField::CacheCreate => c.has_cache_create_tokens,
            }
        },
    }
}

fn count_known(turns: &[TurnRecord], members: &Vec<usize>, f: CoverageField) -> (r: FieldCoverage)
    requires
        attempts::inside(members@, turns@.len()),
    ensures
        r.known == knowing(turns@, members@, f),
        r.known + r.missing == members@.len(),
{
    let mut known: u64 = 0;
    let mut missing: u64 = 0;
    let mut i: usize = 0;
    assert(members@.take(0) =~= Seq::<usize>::empty());
    while i < members.len()
        invariant
            i <= members@.len(),
            attempts::inside(members@, turns@.len()),
            known == knowing(turns@, members@.take(i as int), f),
            known + missing == i,
        decreases members@.len() - i,
    {
        assert(members@.take(i + 1).drop_last() =~= members@.take(i as int));
        assert(members@.take(i + 1).last() == members@[i as int]);
        if check_known(&turns[members[i]], f) {
            known = known + 1;
        } else {
            missing = missing + 1;
        }
        i = i + 1;
    }
    assert(members@.take(i as int) =~= members@);
    FieldCoverage { known, missing }
}

fn find_coverage(turns: &[TurnRecord], members: &Vec<usize>) -> (r: RowCoverage)
    requires
        attempts::inside(members@, turns@.len()),
    ensures
        forall|f: CoverageField|
            (#[trigger] r.at(f)).known == knowing(turns@, members@, f) && r.at(f).known + r.at(
                f,
            ).missing == members@.len(),
{
    RowCoverage {
        input: count_known(turns, members, CoverageField::Input),
        output: count_known(turns, members, CoverageField::Output),
        reasoning: count_known(turns, members, CoverageField::Reasoning),
        cache_read: count_known(turns, members, CoverageField::CacheRead),
        cache_create: count_known(turns, members, CoverageField::CacheCreate),
    }
}

/// The usage of the turns at `members`.
pub fn sum_usage(turns: &[TurnRecord], members: &Vec<usize>) -> (r: UsageTotals)
    requires
        attempts::inside(members@, turns@.len()),
    ensures
        is_usage(r, turns@, members@),
{
    let mut u = UsageTotals {
        input: 0,
        output: 0,
        reasoning: 0,
        cache_read: 0,
        cache_create_5m: 0,
        cache_create_1h: 0,
    };
    let mut i: usize = 0;
    assert(members@.take(0) =~= Seq::<usize>::empty());
    while i < members.len()
        invariant
            i <= members@.len(),
            attempts::inside(members@, turns@.len()),
            is_usage(u, turns@, members@.take(i as int)),
            u.input <= i * u64::MAX,
            u.output <= i * u64::MAX,
            u.reasoning <= i * u64::MAX,
            u.cache_read <= i * u64::MAX,
            u.cache_create_5m <= i * u64::MAX,
            u.cache_create_1h <= i * u64::MAX,
        decreases members@.len() - i,
    {
        assert(members@.take(i + 1).drop_last() =~= members@.take(i as int));
        assert(members@.take(i + 1).last() == members@[i as int]);
        assert((i + 1) * u64::MAX == i * u64::MAX + u64::MAX) by (nonlinear_arith);
        assert((i + 1) * u64::MAX <= u128::MAX) by (nonlinear_arith)
            requires
                i + 1 <= usize::MAX,
        ;
        let t = &turns[members[i]].usage;
        u = UsageTotals {
            input: u.input + t.input as u128,
            output: u.output + t.output as u128,
            reasoning: u.reasoning + t.reasoning as u128,
            cache_read: u.cache_read + t.cache_read as u128,
            cache_create_5m: u.cache_create_5m + t.cache_create_5m as u128,
            cache_create_1h: u.cache_create_1h + t.cache_create_1h as u128,
        };
        i = i + 1;
    }
    assert(members@.take(i as int) =~= members@);
    u
}

fn find_row_key(t: &TurnRecord, rules: &[ProviderRule]) -> (r: String)
    ensures
        r@ == row_key(*t, rule_views(rules@)),
{
    let p = provider_for_with_rules(t, rules);
    if p.provider.as_str().is_empty() {
        "unknown".to_owned()
    } else {
        p.provider
    }
}

/// The turns added up by provider, providers in first-seen order.
pub fn aggregate_by_provider(turns: &[TurnRecord], rules: &[ProviderRule]) -> (r: Vec<
    ProviderAggregateRow,
>)
    ensures
        r@.len() == groups::groups_of(row_keys(turns@, rule_views(rules@))).len(),
        forall|i: int|
            0 <= i < r@.len() ==> is_row(
                #[trigger] r@[i],
                turns@,
                groups::groups_of(row_keys(turns@, rule_views(rules@)))[i],
            ),
{
    let ghost names = row_keys(turns@, rule_views(rules@));
    let mut keys: Vec<String> = Vec::new();
    let mut i: usize = 0;
    while i < turns.len()
        invariant
            i <= turns@.len(),
            keys@.len() == i,
            forall|k: int|
                0 <= k < i ==> (#[trigger] keys@[k])@ == row_key(turns@[k], rule_views(rules@)),
        decreases turns@.len() - i,
    {
        keys.push(find_row_key(&turns[i], rules));
        i = i + 1;
    }
    assert(text::views(keys@) =~= names);
    let found: Vec<Group> = groups::group_by_key(&keys);
    let ghost gs = groups::groups_of(names);
    let n: usize = turns.len();
    let mut out: Vec<ProviderAggregateRow> = Vec::new();
    let mut g: usize = 0;
    assert(groups::group_views(found@).len() == found@.len());
    while g < found.len()
        invariant
            g <= found@.len(),
            n == turns@.len(),
            names == row_keys(turns@, rule_views(rules@)),
            gs == groups::groups_of(names),
            gs == groups::group_views(found@),
            gs.len() == found@.len(),
            out@.len() == g,
            forall|i: int| 0 <= i < g ==> is_row(#[trigger] out@[i], turns@, gs[i]),
        decreases found@.len() - g,
    {
        let ghost key = groups::first_seen(names)[g as int];
        let members = &found[g].members;
        assert(gs[g as int] == groups::group_views(found@)[g as int]);
        proof {
            groups::lemma_positions(names, key);
            assert(gs[g as int] == (key, groups::positions(names, key)));
            assert forall|k: int| 0 <= k < members@.len() implies (#[trigger] members@[k])
                < turns@.len() by {
                assert(groups::positions(names, key)[k] < names.len());
            }
        }
        let row = ProviderAggregateRow {
            provider: found[g].key.clone(),
            label: found[g].key.clone(),
            turns: members.len() as u64,
            usage: sum_usage(turns, members),
            cost_turns: copy_positions(members),
            coverage: find_coverage(turns, members),
        };
        assert(is_row(row, turns@, gs[g as int]));
        out.push(row);
        g = g + 1;
    }
    out
}

/// The providers with the largest keys first, ties as they stand.
pub fn rank_providers(rows: Vec<ProviderAggregateRow>, keys: &[i64]) -> (r: Vec<
    ProviderAggregateRow,
>)
    requires
        keys@.len() == rows@.len(),
    ensures
        r@ == order::in_rank(rows@, keys@, order::unnamed(rows@.len())),
{
    order::arrange_by_key(rows, keys)
}

fn copy_positions(v: &Vec<usize>) -> (r: Vec<usize>)
    ensures
        r@ == v@,
{
    let mut out: Vec<usize> = Vec::new();
    let mut i: usize = 0;
    while i < v.len()
        invariant
            i <= v@.len(),
            out@ == v@.take(i as int),
        decreases v@.len() - i,
    {
        out.push(v[i]);
        assert(v@.take(i + 1) =~= v@.take(i as int).push(v@[i as int]));
        i = i + 1;
    }
    assert(v@.take(i as int) =~= v@);
    out
}

/// A model without a slash that no rule names keeps its name, and its provider
/// is the one that its source implies.
pub proof fn lemma_plain_model(model: Seq<char>, source: SourceKind, rules: Seq<RuleView>)
    requires
        matching_rule(model, rules) == rules.len(),
        forall|i: int| 0 <= i < model.len() ==> #[trigger] model[i] != '/',
    ensures
        provider_of(model, Some(source), rules).provider == source_provider(source),
        provider_of(model, Some(source), rules).normalized_model == model,
{
    lemma_no_slash(model);
}

proof fn lemma_no_slash(model: Seq<char>)
    requires
        forall|i: int| 0 <= i < model.len() ==> #[trigger] model[i] != '/',
    ensures
        slash_at(model) == model.len(),
    decreases model.len(),
{
    if model.len() > 0 {
        let d = model.drop_first();
        assert forall|i: int| 0 <= i < d.len() implies #[trigger] d[i] != '/' by {
            assert(d[i] == model[i + 1]);
        }
        lemma_no_slash(d);
    }
}

} // verus!
