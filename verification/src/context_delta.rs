//! What made the context grow between one inference and the next.
//!
//! The spans of a session are walked in depth-first order. Inferences are
//! paired with the one before them on the same rail, and whatever landed on
//! that rail in between is listed as what drove the change.

use crate::order;
use crate::order::Ordered;
use crate::outside;
use crate::records::CompactionEvent;
use crate::span_tree;
use crate::span_tree::{SpanKind, SpanNode, TurnSpanTree};
use crate::streaks;
use crate::text;
use crate::time;
use std::time::Duration;
use vstd::prelude::*;

verus! {

/// How many bytes are taken for a token.
pub const BYTES_PER_TOKEN: u64 = 4;

/// Number of rows that are kept where no other number is asked for.
pub const DEFAULT_TOP: u32 = 20;

/// Size of the change below which a row is left out where no other is asked
/// for.
pub const DEFAULT_MIN_DELTA: u64 = 1000;

/// Seconds of the window that is looked at where no other is asked for.
pub const DEFAULT_SINCE_SECS: u64 = 86400;

/// The rail that an inference belongs to. Changes are worked out rail by rail.
#[derive(Debug, Clone, PartialEq, Eq, Hash)]
pub enum OwnerRail {
    /// The conversation between the user and the model.
    Main,
    /// A subagent that a tool use dispatched.
    Subagent { agent_id: String },
}

impl View for OwnerRail {
    type V = Option<Seq<char>>;

    open spec fn view(&self) -> Option<Seq<char>> {
        match self {
            OwnerRail::Main => None,
            OwnerRail::Subagent { agent_id } => Some(agent_id@),
        }
    }
}

/// Which rails are asked for.
#[derive(Debug, Clone, Copy, PartialEq, Eq, Structural, Default)]
pub enum OwnerFilter {
    #[default]
    All,
    Main,
    Subagent,
}

/// Where a system reminder came from.
#[derive(Debug, Clone, Copy, PartialEq, Eq, Structural)]
pub enum ReminderSource {
    Relaycast,
    Harness,
    Other,
}

/// One thing that landed in the prompt between two inferences.
#[derive(Debug, Clone, PartialEq)]
pub enum InterveningStep {
    /// The result of a tool use.
    ToolResult {
        tool_use_id: String,
        tool_name: String,
        approx_tokens: u64,
        approx_bytes: u64,
        truncated: bool,
    },
    /// A prompt of the user.
    UserPrompt { approx_tokens: u64, has_system_reminder: bool },
    /// A system reminder.
    SystemReminder { source: ReminderSource, approx_tokens: u64 },
    /// A compaction that made the context smaller.
    Compaction { tokens_freed: u64 },
    /// Anything else.
    Other,
}

/// What an [`InterveningStep`] says.
#[verifier::ext_equal]
pub enum StepView {
    ToolResult {
        tool_use_id: Seq<char>,
        tool_name: Seq<char>,
        approx_tokens: u64,
        approx_bytes: u64,
        truncated: bool,
    },
    UserPrompt { approx_tokens: u64, has_system_reminder: bool },
    SystemReminder { source: ReminderSource, approx_tokens: u64 },
    Compaction { tokens_freed: u64 },
    Other,
}

impl View for InterveningStep {
    type V = StepView;

    open spec fn view(&self) -> StepView {
        match self {
            InterveningStep::ToolResult {
                tool_use_id,
                tool_name,
                approx_tokens,
                approx_bytes,
                truncated,
            } => StepView::ToolResult {
                tool_use_id: tool_use_id@,
                tool_name: tool_name@,
                approx_tokens: *approx_tokens,
                approx_bytes: *approx_bytes,
                truncated: *truncated,
            },
            InterveningStep::UserPrompt { approx_tokens, has_system_reminder } => {
                StepView::UserPrompt {
                    approx_tokens: *approx_tokens,
                    has_system_reminder: *has_system_reminder,
                }
            },
            InterveningStep::SystemReminder { source, approx_tokens } => StepView::SystemReminder {
                source: *source,
                approx_tokens: *approx_tokens,
            },
            InterveningStep::Compaction { tokens_freed } => StepView::Compaction {
                tokens_freed: *tokens_freed,
            },
            InterveningStep::Other => StepView::Other,
        }
    }
}

impl StepView {
    /// Tokens that the step adds. A compaction adds none.
    pub open spec fn tokens(self) -> u64 {
        match self {
            StepView::ToolResult { approx_tokens, .. } => approx_tokens,
            StepView::UserPrompt { approx_tokens, .. } => approx_tokens,
            StepView::SystemReminder { approx_tokens, .. } => approx_tokens,
            StepView::Compaction { .. } => 0,
            StepView::Other => 0,
        }
    }

    /// What the step is called as the driver of a change.
    pub open spec fn label(self) -> Seq<char> {
        match self {
            StepView::ToolResult { tool_name, .. } => tool_name + " result"@,
            StepView::UserPrompt { .. } => "user prompt"@,
            StepView::SystemReminder { .. } => "system-reminder"@,
            StepView::Compaction { tokens_freed } => "compaction -"@ + text::decimal(
                tokens_freed as nat,
            ) + " tok"@,
            StepView::Other => "other"@,
        }
    }
}

impl InterveningStep {
    /// Tokens that the step adds.
    pub fn approx_tokens(&self) -> (r: u64)
        ensures
            r == self@.tokens(),
    {
        match self {
            InterveningStep::ToolResult { approx_tokens, .. } => *approx_tokens,
            InterveningStep::UserPrompt { approx_tokens, .. } => *approx_tokens,
            InterveningStep::SystemReminder { approx_tokens, .. } => *approx_tokens,
            InterveningStep::Compaction { .. } => 0,
            InterveningStep::Other => 0,
        }
    }

    /// What the step is called as the driver of a change.
    pub fn driver_label(&self) -> (r: String)
        ensures
            r@ == self@.label(),
    {
        match self {
            InterveningStep::ToolResult { tool_name, .. } => text::join2(
                tool_name.as_str(),
                " result",
            ),
            InterveningStep::UserPrompt { .. } => "user prompt".to_owned(),
            InterveningStep::SystemReminder { .. } => "system-reminder".to_owned(),
            InterveningStep::Compaction { tokens_freed } => text::join3(
                "compaction -",
                text::decimal_string(*tokens_freed).as_str(),
                " tok",
            ),
            InterveningStep::Other => "other".to_owned(),
        }
    }
}

/// The change from one inference to the next on a rail.
#[derive(Debug, Clone, PartialEq)]
pub struct ContextDelta {
    pub session_id: String,
    pub turn_id: String,
    /// The position of the later inference on its rail, counted from 1.
    pub inference_idx: u32,
    pub owner_rail: OwnerRail,
    pub prior_context_tokens: u64,
    pub current_context_tokens: u64,
    /// Never below 0.
    pub delta_tokens: i64,
    pub intervening: Vec<InterveningStep>,
    /// The model whose rate for cached input prices the change.
    pub model: String,
}

/// What a [`ContextDelta`] says.
#[verifier::ext_equal]
pub struct RowView {
    pub session: Seq<char>,
    pub turn: Seq<char>,
    pub inference_idx: int,
    pub rail: Option<Seq<char>>,
    pub prior: int,
    pub current: int,
    pub delta: int,
    pub steps: Seq<StepView>,
    pub model: Seq<char>,
}

/// What the steps say.
pub open spec fn step_views(v: Seq<InterveningStep>) -> Seq<StepView> {
    v.map_values(|s: InterveningStep| s@)
}

impl View for ContextDelta {
    type V = RowView;

    open spec fn view(&self) -> RowView {
        RowView {
            session: self.session_id@,
            turn: self.turn_id@,
            inference_idx: self.inference_idx as int,
            rail: self.owner_rail@,
            prior: self.prior_context_tokens as int,
            current: self.current_context_tokens as int,
            delta: self.delta_tokens as int,
            steps: step_views(self.intervening@),
            model: self.model@,
        }
    }
}

/// What the rows say.
pub open spec fn row_views(v: Seq<ContextDelta>) -> Seq<RowView> {
    v.map_values(|d: ContextDelta| d@)
}

/// What is asked for.
#[derive(Debug, Clone)]
pub struct ContextDeltaOpts {
    /// The one session to look at; all where there is none.
    pub session: Option<String>,
    /// How far back to look.
    pub since: Option<Duration>,
    /// How many rows to keep.
    pub top: Option<u32>,
    /// The size of the change below which a row is left out. A row with a
    /// compaction stays.
    pub min_delta: Option<u64>,
    pub owner: OwnerFilter,
}

impl Default for ContextDeltaOpts {
    fn default() -> (r: ContextDeltaOpts)
        ensures
            r.session is None,
            r.since is None,
            r.top is None,
            r.min_delta is None,
            r.owner == OwnerFilter::All,
    {
        ContextDeltaOpts {
            session: None,
            since: None,
            top: None,
            min_delta: None,
            owner: OwnerFilter::All,
        }
    }
}

impl ContextDeltaOpts {
    /// Number of rows to keep.
    pub open spec fn rows_kept(self) -> u32 {
        match self.top {
            Some(n) => n,
            None => DEFAULT_TOP,
        }
    }

    /// Size of the change below which a row is left out.
    pub open spec fn floor(self) -> u64 {
        match self.min_delta {
            Some(n) => n,
            None => DEFAULT_MIN_DELTA,
        }
    }

    /// Number of rows to keep.
    pub fn effective_top(&self) -> (r: u32)
        ensures
            r == self.rows_kept(),
    {
        match self.top {
            Some(n) => n,
            None => DEFAULT_TOP,
        }
    }

    /// Size of the change below which a row is left out.
    pub fn effective_min_delta(&self) -> (r: u64)
        ensures
            r == self.floor(),
    {
        match self.min_delta {
            Some(n) => n,
            None => DEFAULT_MIN_DELTA,
        }
    }

    /// How far back to look: a day where nothing else is asked for.
    pub fn effective_since(&self) -> (r: Duration)
        ensures
            r == (match self.since {
                Some(d) => d,
                None => outside::seconds(DEFAULT_SINCE_SECS),
            }),
    {
        match self.since {
            Some(d) => d,
            None => Duration::from_secs(DEFAULT_SINCE_SECS),
        }
    }
}

/// What stands on the timeline.
#[verifier::ext_equal]
pub enum ItemKind {
    Inference { context_tokens: int, model: Seq<char> },
    ToolResult { tool_use_id: Seq<char>, tool_name: Seq<char>, bytes: u64, truncated: bool },
    UserPrompt,
}

/// One item of the timeline.
#[verifier::ext_equal]
pub struct ItemView {
    pub session: Seq<char>,
    pub turn: Seq<char>,
    pub rail: Option<Seq<char>>,
    pub kind: ItemKind,
    pub start_ms: i64,
    pub end_ms: i64,
}

/// The number under `key`, 0 where there is none.
pub open spec fn count_attr(node: SpanNode, key: Seq<char>) -> i64 {
    match span_tree::int_attr(node, key) {
        Some(v) => v,
        None => 0,
    }
}

/// The string under `key`, empty where there is none.
pub open spec fn text_attr(node: SpanNode, key: Seq<char>) -> Seq<char> {
    match span_tree::string_attr(node, key) {
        Some(s) => s,
        None => Seq::empty(),
    }
}

/// Tokens in the context of an inference: its input, read from the cache or
/// not, and what it puts into the cache.
pub open spec fn context_tokens(node: SpanNode) -> int {
    let n = count_attr(node, "tokens.input"@) + count_attr(node, "tokens.cache_read"@) + count_attr(
        node,
        "tokens.cache_write"@,
    );
    if n > 0 {
        n
    } else {
        0
    }
}

/// The model of an inference: the attribute, or else the name of the span.
pub open spec fn model_of(node: SpanNode) -> Seq<char> {
    match span_tree::string_attr(node, "model"@) {
        Some(m) => m,
        None => node.name@,
    }
}

/// Size of a tool result.
pub open spec fn output_bytes(node: SpanNode) -> u64 {
    let n = count_attr(node, "output_bytes"@);
    if n > 0 {
        n as u64
    } else {
        0
    }
}

/// The rail below the span: a subagent has one of its own.
pub open spec fn rail_below(node: SpanNode, rail: Option<Seq<char>>) -> Option<Seq<char>> {
    if node.kind == SpanKind::Subagent {
        Some(text_attr(node, "agent_id"@))
    } else {
        rail
    }
}

/// The tool that results below the span are of: that of the nearest tool use
/// with a name.
pub open spec fn tool_below(node: SpanNode, tool: Seq<char>) -> Seq<char> {
    if node.kind == SpanKind::ToolUse && node.name@.len() > 0 {
        node.name@
    } else {
        tool
    }
}

/// The item of the span itself, if it stands on the timeline.
pub open spec fn own_item(
    node: SpanNode,
    tree: TurnSpanTree,
    rail: Option<Seq<char>>,
    tool: Seq<char>,
) -> Option<ItemView> {
    let kind = match node.kind {
        SpanKind::Inference => Some(
            ItemKind::Inference { context_tokens: context_tokens(node), model: model_of(node) },
        ),
        SpanKind::ToolResult => Some(
            ItemKind::ToolResult {
                tool_use_id: text_attr(node, "tool_use_id"@),
                tool_name: tool,
                bytes: output_bytes(node),
                truncated: span_tree::flag_attr(node, "output_truncated"@),
            },
        ),
        SpanKind::UserPrompt => Some(ItemKind::UserPrompt),
        _ => None,
    };
    match kind {
        Some(kind) => Some(
            ItemView {
                session: tree.session_id@,
                turn: tree.turn_id@,
                rail,
                kind,
                start_ms: node.start_ms,
                end_ms: node.end_ms,
            },
        ),
        None => None,
    }
}

/// The items of the span and of those below it, in depth-first order.
pub open spec fn items_of(
    node: SpanNode,
    tree: TurnSpanTree,
    rail: Option<Seq<char>>,
    tool: Seq<char>,
) -> Seq<ItemView>
    decreases node,
{
    let below = items_of_all(node.children@, tree, rail_below(node, rail), tool_below(node, tool));
    match own_item(node, tree, rail, tool) {
        Some(x) => seq![x] + below,
        None => below,
    }
}

/// The items of the spans `kids`, one after the other.
pub open spec fn items_of_all(
    kids: Seq<SpanNode>,
    tree: TurnSpanTree,
    rail: Option<Seq<char>>,
    tool: Seq<char>,
) -> Seq<ItemView>
    decreases kids,
{
    if kids.len() == 0 {
        Seq::empty()
    } else {
        items_of_all(kids.drop_last(), tree, rail, tool) + items_of(kids.last(), tree, rail, tool)
    }
}

/// The timeline of a session.
pub open spec fn timeline(trees: Seq<TurnSpanTree>) -> Seq<ItemView>
    decreases trees.len(),
{
    if trees.len() == 0 {
        Seq::empty()
    } else {
        timeline(trees.drop_last()) + items_of(
            trees.last().root,
            trees.last(),
            None,
            Seq::empty(),
        )
    }
}

/// Whether the tokens of the inference can be added up.
pub open spec fn sums_fit(node: SpanNode) -> bool {
    let a = count_attr(node, "tokens.input"@) + count_attr(node, "tokens.cache_read"@);
    let b = a + count_attr(node, "tokens.cache_write"@);
    i64::MIN <= a <= i64::MAX && i64::MIN <= b <= i64::MAX
}

/// Whether the tokens of every inference in the tree can be added up.
pub open spec fn node_fits(node: SpanNode) -> bool
    decreases node,
{
    (node.kind == SpanKind::Inference ==> sums_fit(node)) && nodes_fit(node.children@)
}

/// Whether that holds in each of the trees.
pub open spec fn nodes_fit(kids: Seq<SpanNode>) -> bool
    decreases kids,
{
    kids.len() == 0 || (nodes_fit(kids.drop_last()) && node_fits(kids.last()))
}

/// Whether the session fits the numbers that it is counted in.
pub open spec fn session_fits(trees: Seq<TurnSpanTree>) -> bool {
    &&& forall|i: int| 0 <= i < trees.len() ==> node_fits((#[trigger] trees[i]).root)
    &&& span_tree::total_spans(trees) < u32::MAX
}

/// Whether the item is an inference on the rail.
pub open spec fn is_inference_on(item: ItemView, rail: Option<Seq<char>>) -> bool {
    item.kind is Inference && item.rail == rail
}

/// Number of inferences on the rail.
pub open spec fn inferences_on(items: Seq<ItemView>, rail: Option<Seq<char>>) -> nat
    decreases items.len(),
{
    if items.len() == 0 {
        0
    } else {
        inferences_on(items.drop_last(), rail) + if is_inference_on(items.last(), rail) {
            1nat
        } else {
            0nat
        }
    }
}

/// The position of the last inference on the rail.
pub open spec fn last_inference_on(items: Seq<ItemView>, rail: Option<Seq<char>>) -> Option<int>
    decreases items.len(),
{
    if items.len() == 0 {
        None
    } else if is_inference_on(items.last(), rail) {
        Some(items.len() - 1)
    } else {
        last_inference_on(items.drop_last(), rail)
    }
}

/// What an item is as a step, if it is one.
pub open spec fn step_of(item: ItemView) -> Option<StepView> {
    match item.kind {
        ItemKind::Inference { .. } => None,
        ItemKind::ToolResult { tool_use_id, tool_name, bytes, truncated } => Some(
            StepView::ToolResult {
                tool_use_id,
                tool_name,
                approx_tokens: bytes / BYTES_PER_TOKEN,
                approx_bytes: bytes,
                truncated,
            },
        ),
        ItemKind::UserPrompt => Some(
            StepView::UserPrompt { approx_tokens: 0, has_system_reminder: false },
        ),
    }
}

/// The steps on the rail, in order.
pub open spec fn steps_on(items: Seq<ItemView>, rail: Option<Seq<char>>) -> Seq<StepView>
    decreases items.len(),
{
    if items.len() == 0 {
        Seq::empty()
    } else {
        let rest = steps_on(items.drop_last(), rail);
        match step_of(items.last()) {
            Some(s) => if items.last().rail == rail {
                rest.push(s)
            } else {
                rest
            },
            None => rest,
        }
    }
}

/// When the compactions happened, 0 where the time cannot be told.
pub open spec fn compaction_times(events: Seq<CompactionEvent>) -> Seq<int> {
    events.map_values(
        |e: CompactionEvent|
            match time::iso_ms(e.ts@) {
                Some(ms) => ms,
                None => 0,
            },
    )
}

/// Whether one of the times lies from `lo` to `hi`.
pub open spec fn some_between(times: Seq<int>, lo: int, hi: int) -> bool {
    exists|i: int| 0 <= i < times.len() && lo <= #[trigger] times[i] <= hi
}

/// The change up to the inference at `p` from the one at `q`.
pub open spec fn row_between(items: Seq<ItemView>, times: Seq<int>, q: int, p: int) -> RowView {
    let rail = items[p].rail;
    let prior = items[q].kind->Inference_context_tokens;
    let current = items[p].kind->Inference_context_tokens;
    let steps = steps_on(items.subrange(q + 1, p), rail);
    let compacted = current < prior && some_between(
        times,
        items[q].end_ms as int,
        items[p].start_ms as int,
    );
    RowView {
        session: items[p].session,
        turn: items[p].turn,
        inference_idx: inferences_on(items.take(p + 1), rail) as int,
        rail,
        prior,
        current,
        delta: if compacted {
            0
        } else {
            current - prior
        },
        steps: if compacted {
            steps.push(StepView::Compaction { tokens_freed: (prior - current) as u64 })
        } else {
            steps
        },
        model: items[p].kind->Inference_model,
    }
}

/// The change up to the item at `p`, if it is an inference with another before
/// it on its rail.
pub open spec fn row_at(items: Seq<ItemView>, times: Seq<int>, p: int) -> Option<RowView> {
    if items[p].kind is Inference {
        match last_inference_on(items.take(p), items[p].rail) {
            Some(q) => Some(row_between(items, times, q, p)),
            None => None,
        }
    } else {
        None
    }
}

/// Whether the rail is asked for.
pub open spec fn passes(rail: Option<Seq<char>>, filter: OwnerFilter) -> bool {
    match filter {
        OwnerFilter::All => true,
        OwnerFilter::Main => rail is None,
        OwnerFilter::Subagent => rail is Some,
    }
}

/// Whether the row ends with a compaction.
pub open spec fn is_compacted(row: RowView) -> bool {
    row.steps.len() > 0 && row.steps.last() is Compaction
}

/// Whether the row is one to keep.
pub open spec fn is_kept(row: RowView, opts: ContextDeltaOpts) -> bool {
    passes(row.rail, opts.owner) && (is_compacted(row) || row.delta >= opts.floor())
}

/// The rows to keep of the first `n` items.
pub open spec fn rows_of(
    items: Seq<ItemView>,
    times: Seq<int>,
    opts: ContextDeltaOpts,
    n: int,
) -> Seq<RowView>
    decreases n,
{
    if n <= 0 {
        Seq::empty()
    } else {
        let rest = rows_of(items, times, opts, n - 1);
        match row_at(items, times, n - 1) {
            Some(row) => if is_kept(row, opts) {
                rest.push(row)
            } else {
                rest
            },
            None => rest,
        }
    }
}

/// The order of rails: the main one first, then the subagents by id.
pub open spec fn rail_before(a: Option<Seq<char>>, b: Option<Seq<char>>) -> bool {
    match (a, b) {
        (None, Some(_)) => true,
        (Some(x), Some(y)) => text::str_lt(x, y),
        _ => false,
    }
}

/// The order of rows: the largest change first, then by turn, position on the
/// rail, rail and session.
pub open spec fn row_before(a: RowView, b: RowView) -> bool {
    if a.delta != b.delta {
        a.delta > b.delta
    } else if a.turn != b.turn {
        text::str_lt(a.turn, b.turn)
    } else if a.inference_idx != b.inference_idx {
        a.inference_idx < b.inference_idx
    } else if a.rail != b.rail {
        rail_before(a.rail, b.rail)
    } else {
        text::str_lt(a.session, b.session)
    }
}

/// [`row_before`] as a function value.
pub open spec fn row_order() -> spec_fn(RowView, RowView) -> bool {
    |a: RowView, b: RowView| row_before(a, b)
}

/// The first `n` elements, or all where there are no more.
pub open spec fn first_of<A>(s: Seq<A>, n: int) -> Seq<A> {
    if s.len() <= n {
        s
    } else {
        s.take(n)
    }
}

/// The rows of a session.
pub open spec fn deltas_of(
    trees: Seq<TurnSpanTree>,
    events: Seq<CompactionEvent>,
    opts: ContextDeltaOpts,
) -> Seq<RowView> {
    let items = timeline(trees);
    first_of(
        order::stable_sort(
            rows_of(items, compaction_times(events), opts, items.len() as int),
            row_order(),
        ),
        opts.rows_kept() as int,
    )
}

enum TimelineKind {
    Inference { context_tokens: u64, model: String },
    ToolResult { tool_use_id: String, tool_name: String, approx_bytes: u64, truncated: bool },
    UserPrompt,
}

struct TimelineItem {
    session_id: String,
    turn_id: String,
    owner: OwnerRail,
    kind: TimelineKind,
    start_ms: i64,
    end_ms: i64,
}

impl TimelineKind {
    spec fn view(&self) -> ItemKind {
        match self {
            TimelineKind::Inference { context_tokens, model } => ItemKind::Inference {
                context_tokens: *context_tokens as int,
                model: model@,
            },
            TimelineKind::ToolResult { tool_use_id, tool_name, approx_bytes, truncated } => {
                ItemKind::ToolResult {
                    tool_use_id: tool_use_id@,
                    tool_name: tool_name@,
                    bytes: *approx_bytes,
                    truncated: *truncated,
                }
            },
            TimelineKind::UserPrompt => ItemKind::UserPrompt,
        }
    }
}

impl TimelineItem {
    spec fn view(&self) -> ItemView {
        ItemView {
            session: self.session_id@,
            turn: self.turn_id@,
            rail: self.owner@,
            kind: self.kind@,
            start_ms: self.start_ms,
            end_ms: self.end_ms,
        }
    }

    fn to_intervening_step(&self) -> (r: Option<InterveningStep>)
        ensures
            (match r {
                Some(s) => Some(s@),
                None => None,
            }) == step_of(self@),
    {
        match &self.kind {
            TimelineKind::ToolResult { tool_use_id, tool_name, approx_bytes, truncated } => Some(
                InterveningStep::ToolResult {
                    tool_use_id: tool_use_id.clone(),
                    tool_name: tool_name.clone(),
                    approx_tokens: *approx_bytes / BYTES_PER_TOKEN,
                    approx_bytes: *approx_bytes,
                    truncated: *truncated,
                },
            ),
            TimelineKind::UserPrompt => Some(
                InterveningStep::UserPrompt { approx_tokens: 0, has_system_reminder: false },
            ),
            TimelineKind::Inference { .. } => None,
        }
    }
}

spec fn item_views(v: Seq<TimelineItem>) -> Seq<ItemView> {
    v.map_values(|x: TimelineItem| x@)
}

/// Every inference has a context that a signed number can hold.
spec fn contexts_fit(items: Seq<ItemView>) -> bool {
    forall|i: int|
        0 <= i < items.len() && (#[trigger] items[i]).kind is Inference ==> 0
            <= items[i].kind->Inference_context_tokens <= i64::MAX
}

fn copy_rail(rail: &OwnerRail) -> (r: OwnerRail)
    ensures
        r@ == rail@,
{
    match rail {
        OwnerRail::Main => OwnerRail::Main,
        OwnerRail::Subagent { agent_id } => OwnerRail::Subagent { agent_id: agent_id.clone() },
    }
}

fn same_rail(a: &OwnerRail, b: &OwnerRail) -> (r: bool)
    ensures
        r == (a@ == b@),
{
    match (a, b) {
        (OwnerRail::Main, OwnerRail::Main) => true,
        (OwnerRail::Subagent { agent_id: x }, OwnerRail::Subagent { agent_id: y }) => text::same(
            x.as_str(),
            y.as_str(),
        ),
        _ => false,
    }
}

fn int_or_zero(node: &SpanNode, key: &str) -> (r: i64)
    ensures
        r == count_attr(*node, key@),
{
    match node.attr_int(key) {
        Some(v) => v,
        None => 0,
    }
}

fn text_or_empty(node: &SpanNode, key: &str) -> (r: String)
    ensures
        r@ == text_attr(*node, key@),
{
    match node.attr_string(key) {
        Some(s) => s,
        None => String::new(),
    }
}

fn item_kind(node: &SpanNode, tool: &str) -> (r: Option<TimelineKind>)
    requires
        node.kind == SpanKind::Inference ==> sums_fit(*node),
    ensures
        forall|tree: TurnSpanTree, rail: Option<Seq<char>>|
            (match #[trigger] own_item(*node, tree, rail, tool@) {
                Some(x) => Some(x.kind),
                None => None,
            }) == (match r {
                Some(k) => Some(k@),
                None => None,
            }),
        r matches Some(TimelineKind::Inference { context_tokens, .. }) ==> context_tokens
            <= i64::MAX,
{
    match node.kind {
        SpanKind::Inference => {
            let a: i64 = int_or_zero(node, "tokens.input") + int_or_zero(node, "tokens.cache_read");
            let b: i64 = a + int_or_zero(node, "tokens.cache_write");
            let model = match node.attr_string("model") {
                Some(m) => m,
                None => node.name.clone(),
            };
            Some(
                TimelineKind::Inference {
                    context_tokens: if b > 0 {
                        b as u64
                    } else {
                        0
                    },
                    model,
                },
            )
        },
        SpanKind::ToolResult => {
            let n: i64 = int_or_zero(node, "output_bytes");
            Some(
                TimelineKind::ToolResult {
                    tool_use_id: text_or_empty(node, "tool_use_id"),
                    tool_name: tool.to_owned(),
                    approx_bytes: if n > 0 {
                        n as u64
                    } else {
                        0
                    },
                    truncated: node.attr_is_true("output_truncated"),
                },
            )
        },
        SpanKind::UserPrompt => Some(TimelineKind::UserPrompt),
        _ => None,
    }
}

fn walk_node(
    node: &SpanNode,
    tree: &TurnSpanTree,
    rail: &OwnerRail,
    tool: &str,
    out: &mut Vec<TimelineItem>,
)
    requires
        node_fits(*node),
        contexts_fit(item_views(old(out)@)),
    ensures
        item_views(final(out)@) == item_views(old(out)@) + items_of(*node, *tree, rail@, tool@),
        contexts_fit(item_views(final(out)@)),
    decreases node,
{
    let ghost start = item_views(out@);
    match item_kind(node, tool) {
        Some(kind) => {
            let item = TimelineItem {
                session_id: tree.session_id.clone(),
                turn_id: tree.turn_id.clone(),
                owner: copy_rail(rail),
                kind,
                start_ms: node.start_ms,
                end_ms: node.end_ms,
            };
            proof {
                assert(own_item(*node, *tree, rail@, tool@) == Some(item@));
            }
            out.push(item);
            assert(item_views(out@) =~= start.push(item@));
            assert(start.push(item@) =~= start + seq![item@]);
        },
        None => {
            assert(own_item(*node, *tree, rail@, tool@) is None);
        },
    }
    let ghost mid = item_views(out@);
    let below = if node.kind == SpanKind::Subagent {
        OwnerRail::Subagent { agent_id: text_or_empty(node, "agent_id") }
    } else {
        copy_rail(rail)
    };
    if node.kind == SpanKind::ToolUse && !node.name.as_str().is_empty() {
        walk_nodes(&node.children, tree, &below, node.name.as_str(), out);
    } else {
        walk_nodes(&node.children, tree, &below, tool, out);
    }
    assert(item_views(out@) =~= start + items_of(*node, *tree, rail@, tool@));
}

fn walk_nodes(
    kids: &Vec<SpanNode>,
    tree: &TurnSpanTree,
    rail: &OwnerRail,
    tool: &str,
    out: &mut Vec<TimelineItem>,
)
    requires
        nodes_fit(kids@),
        contexts_fit(item_views(old(out)@)),
    ensures
        item_views(final(out)@) == item_views(old(out)@) + items_of_all(
            kids@,
            *tree,
            rail@,
            tool@,
        ),
        contexts_fit(item_views(final(out)@)),
    decreases kids,
{
    let ghost start = item_views(out@);
    let mut i: usize = 0;
    assert(kids@.take(0) =~= Seq::<SpanNode>::empty());
    assert(start + Seq::<ItemView>::empty() =~= start);
    while i < kids.len()
        invariant
            i <= kids@.len(),
            nodes_fit(kids@),
            item_views(out@) == start + items_of_all(kids@.take(i as int), *tree, rail@, tool@),
            contexts_fit(item_views(out@)),
        decreases kids@.len() - i,
    {
        proof {
            lemma_nodes_fit(kids@, i as int);
            assert(kids@.take(i + 1).drop_last() =~= kids@.take(i as int));
            assert(kids@.take(i + 1).last() == kids@[i as int]);
            assert(decreases_to!(kids => kids@[i as int]));
        }
        walk_node(&kids[i], tree, rail, tool, out);
        assert(item_views(out@) =~= start + items_of_all(
            kids@.take(i + 1),
            *tree,
            rail@,
            tool@,
        ));
        i = i + 1;
    }
    assert(kids@.take(i as int) =~= kids@);
}

proof fn lemma_nodes_fit(kids: Seq<SpanNode>, i: int)
    requires
        0 <= i < kids.len(),
        nodes_fit(kids),
    ensures
        node_fits(kids[i]),
    decreases kids.len(),
{
    if i < kids.len() - 1 {
        lemma_nodes_fit(kids.drop_last(), i);
    }
}

fn check_node(node: &SpanNode) -> (r: bool)
    ensures
        r == node_fits(*node),
    decreases node,
{
    if node.kind == SpanKind::Inference {
        let a: i128 = int_or_zero(node, "tokens.input") as i128 + int_or_zero(
            node,
            "tokens.cache_read",
        ) as i128;
        let b: i128 = a + int_or_zero(node, "tokens.cache_write") as i128;
        if a < i64::MIN as i128 || a > i64::MAX as i128 || b < i64::MIN as i128 || b
            > i64::MAX as i128 {
            return false;
        }
    }
    check_nodes(&node.children)
}

fn check_nodes(kids: &Vec<SpanNode>) -> (r: bool)
    ensures
        r == nodes_fit(kids@),
    decreases kids,
{
    let mut i: usize = 0;
    assert(kids@.take(0) =~= Seq::<SpanNode>::empty());
    while i < kids.len()
        invariant
            i <= kids@.len(),
            nodes_fit(kids@.take(i as int)),
        decreases kids@.len() - i,
    {
        proof {
            assert(kids@.take(i + 1).drop_last() =~= kids@.take(i as int));
            assert(kids@.take(i + 1).last() == kids@[i as int]);
            assert(decreases_to!(kids => kids@[i as int]));
        }
        if !check_node(&kids[i]) {
            proof {
                if nodes_fit(kids@) {
                    lemma_nodes_fit(kids@, i as int);
                }
            }
            return false;
        }
        i = i + 1;
    }
    assert(kids@.take(i as int) =~= kids@);
    true
}

/// Whether the session fits the numbers that it is counted in.
pub fn check_session_fits(trees: &[TurnSpanTree]) -> (r: bool)
    ensures
        r == session_fits(trees@),
{
    let mut n: u64 = 0;
    let mut i: usize = 0;
    assert(trees@.take(0) =~= Seq::<TurnSpanTree>::empty());
    while i < trees.len()
        invariant
            i <= trees@.len(),
            n == span_tree::total_spans(trees@.take(i as int)),
            n < u32::MAX,
            forall|k: int| 0 <= k < i ==> node_fits((#[trigger] trees@[k]).root),
        decreases trees@.len() - i,
    {
        proof {
            assert(trees@.take(i + 1).drop_last() =~= trees@.take(i as int));
            assert(trees@.take(i + 1).last() == trees@[i as int]);
            span_tree::lemma_total_spans(trees@, i + 1);
        }
        if !check_node(&trees[i].root) {
            return false;
        }
        match span_tree::count_spans(&trees[i].root, (u32::MAX - 1) as u64 - n) {
            Some(m) => {
                n = n + m;
            },
            None => {
                return false;
            },
        }
        i = i + 1;
    }
    assert(trees@.take(i as int) =~= trees@);
    true
}

proof fn lemma_items_count(
    node: SpanNode,
    tree: TurnSpanTree,
    rail: Option<Seq<char>>,
    tool: Seq<char>,
)
    ensures
        items_of(node, tree, rail, tool).len() <= span_tree::span_count(node),
    decreases node,
{
    lemma_all_items_count(
        node.children@,
        tree,
        rail_below(node, rail),
        tool_below(node, tool),
    );
}

proof fn lemma_all_items_count(
    kids: Seq<SpanNode>,
    tree: TurnSpanTree,
    rail: Option<Seq<char>>,
    tool: Seq<char>,
)
    ensures
        items_of_all(kids, tree, rail, tool).len() <= span_tree::span_counts(kids),
    decreases kids,
{
    if kids.len() > 0 {
        lemma_all_items_count(kids.drop_last(), tree, rail, tool);
        lemma_items_count(kids.last(), tree, rail, tool);
    }
}

proof fn lemma_timeline_count(trees: Seq<TurnSpanTree>)
    ensures
        timeline(trees).len() <= span_tree::total_spans(trees),
    decreases trees.len(),
{
    if trees.len() > 0 {
        lemma_timeline_count(trees.drop_last());
        lemma_items_count(trees.last().root, trees.last(), None, Seq::empty());
    }
}

fn build_timeline(trees: &[TurnSpanTree]) -> (r: Vec<TimelineItem>)
    requires
        session_fits(trees@),
    ensures
        item_views(r@) == timeline(trees@),
        contexts_fit(timeline(trees@)),
        r@.len() < u32::MAX,
{
    let mut out: Vec<TimelineItem> = Vec::new();
    let main = OwnerRail::Main;
    let mut i: usize = 0;
    assert(trees@.take(0) =~= Seq::<TurnSpanTree>::empty());
    assert(item_views(out@) =~= Seq::<ItemView>::empty());
    proof {
        reveal_strlit("");
        assert(""@ =~= Seq::<char>::empty());
    }
    while i < trees.len()
        invariant
            i <= trees@.len(),
            session_fits(trees@),
            main@ is None,
            ""@ == Seq::<char>::empty(),
            item_views(out@) == timeline(trees@.take(i as int)),
            contexts_fit(item_views(out@)),
        decreases trees@.len() - i,
    {
        assert(trees@.take(i + 1).drop_last() =~= trees@.take(i as int));
        assert(trees@.take(i + 1).last() == trees@[i as int]);
        walk_node(&trees[i].root, &trees[i], &main, "", &mut out);
        i = i + 1;
    }
    assert(trees@.take(i as int) =~= trees@);
    proof {
        lemma_timeline_count(trees@);
        assert(item_views(out@).len() == out@.len());
    }
    out
}

fn find_times(events: &[CompactionEvent]) -> (r: Vec<i64>)
    ensures
        r@.len() == events@.len(),
        forall|i: int| 0 <= i < r@.len() ==> #[trigger] r@[i] == compaction_times(events@)[i],
{
    let mut out: Vec<i64> = Vec::new();
    let mut i: usize = 0;
    while i < events.len()
        invariant
            i <= events@.len(),
            out@.len() == i,
            forall|k: int| 0 <= k < i ==> #[trigger] out@[k] == compaction_times(events@)[k],
        decreases events@.len() - i,
    {
        let ms: i64 = match time::parse_iso_ms(events[i].ts.as_str()) {
            Some(ms) => ms,
            None => 0,
        };
        out.push(ms);
        i = i + 1;
    }
    out
}

fn any_between(times: &Vec<i64>, lo: i64, hi: i64) -> (r: bool)
    ensures
        r == (exists|i: int| 0 <= i < times@.len() && lo <= #[trigger] times@[i] <= hi),
{
    let mut i: usize = 0;
    while i < times.len()
        invariant
            i <= times@.len(),
            forall|k: int| 0 <= k < i ==> !(lo <= #[trigger] times@[k] <= hi),
        decreases times@.len() - i,
    {
        if lo <= times[i] && times[i] <= hi {
            return true;
        }
        i = i + 1;
    }
    false
}

fn find_previous(items: &Vec<TimelineItem>, p: usize) -> (r: Option<usize>)
    requires
        p < items@.len(),
    ensures
        (match r {
            Some(q) => Some(q as int),
            None => None,
        }) == last_inference_on(item_views(items@).take(p as int), items@[p as int]@.rail),
        r matches Some(q) ==> q < p && items@[q as int]@.kind is Inference,
{
    let ghost all = item_views(items@);
    let ghost rail = items@[p as int]@.rail;
    let mut i: usize = p;
    while i > 0
        invariant
            i <= p < items@.len(),
            all == item_views(items@),
            rail == items@[p as int]@.rail,
            last_inference_on(all.take(p as int), rail) == last_inference_on(
                all.take(i as int),
                rail,
            ),
        decreases i,
    {
        assert(all.take(i as int).last() == items@[i - 1]@);
        assert(all.take(i as int).drop_last() =~= all.take(i - 1));
        let item = &items[i - 1];
        let inference = match &item.kind {
            TimelineKind::Inference { .. } => true,
            _ => false,
        };
        if inference && same_rail(&item.owner, &items[p].owner) {
            return Some(i - 1);
        }
        i = i - 1;
    }
    None
}

fn count_inferences(items: &Vec<TimelineItem>, p: usize) -> (r: u32)
    requires
        p < items@.len(),
        items@.len() < u32::MAX,
    ensures
        r == inferences_on(item_views(items@).take(p + 1), items@[p as int]@.rail),
{
    let ghost all = item_views(items@);
    let ghost rail = items@[p as int]@.rail;
    let mut n: u32 = 0;
    let mut i: usize = 0;
    assert(all.take(0) =~= Seq::<ItemView>::empty());
    while i <= p
        invariant
            i <= p + 1,
            p < items@.len(),
            items@.len() < u32::MAX,
            all == item_views(items@),
            rail == items@[p as int]@.rail,
            n == inferences_on(all.take(i as int), rail),
            n <= i,
        decreases p + 1 - i,
    {
        assert(all.take(i + 1).last() == items@[i as int]@);
        assert(all.take(i + 1).drop_last() =~= all.take(i as int));
        let item = &items[i];
        let inference = match &item.kind {
            TimelineKind::Inference { .. } => true,
            _ => false,
        };
        if inference && same_rail(&item.owner, &items[p].owner) {
            n = n + 1;
        }
        i = i + 1;
    }
    n
}

fn find_steps(items: &Vec<TimelineItem>, q: usize, p: usize) -> (r: Vec<InterveningStep>)
    requires
        q < p < items@.len(),
    ensures
        step_views(r@) == steps_on(
            item_views(items@).subrange(q + 1, p as int),
            items@[p as int]@.rail,
        ),
{
    let ghost all = item_views(items@);
    let ghost rail = items@[p as int]@.rail;
    let mut out: Vec<InterveningStep> = Vec::new();
    let mut i: usize = q + 1;
    assert(all.subrange(q + 1, q + 1) =~= Seq::<ItemView>::empty());
    assert(step_views(out@) =~= Seq::<StepView>::empty());
    while i < p
        invariant
            q < i <= p < items@.len(),
            all == item_views(items@),
            rail == items@[p as int]@.rail,
            step_views(out@) == steps_on(all.subrange(q + 1, i as int), rail),
        decreases p - i,
    {
        assert(all.subrange(q + 1, i + 1).last() == items@[i as int]@);
        assert(all.subrange(q + 1, i + 1).drop_last() =~= all.subrange(q + 1, i as int));
        let item = &items[i];
        if same_rail(&item.owner, &items[p].owner) {
            match item.to_intervening_step() {
                Some(s) => {
                    let ghost before = step_views(out@);
                    out.push(s);
                    assert(step_views(out@) =~= before.push(s@));
                },
                None => {},
            }
        }
        i = i + 1;
    }
    out
}

proof fn lemma_steps_not_compacted(items: Seq<ItemView>, rail: Option<Seq<char>>)
    ensures
        forall|i: int|
            0 <= i < steps_on(items, rail).len() ==> !((#[trigger] steps_on(
                items,
                rail,
            )[i]) is Compaction),
    decreases items.len(),
{
    if items.len() > 0 {
        lemma_steps_not_compacted(items.drop_last(), rail);
    }
}

fn rail_passes_filter(rail: &OwnerRail, filter: OwnerFilter) -> (r: bool)
    ensures
        r == passes(rail@, filter),
{
    match filter {
        OwnerFilter::All => true,
        OwnerFilter::Main => match rail {
            OwnerRail::Main => true,
            _ => false,
        },
        OwnerFilter::Subagent => match rail {
            OwnerRail::Main => false,
            _ => true,
        },
    }
}

fn find_row(items: &Vec<TimelineItem>, times: &Vec<i64>, p: usize, opts: &ContextDeltaOpts) -> (r:
    Option<ContextDelta>)
    requires
        p < items@.len(),
        items@.len() < u32::MAX,
        contexts_fit(item_views(items@)),
    ensures
        ({
            let row = row_at(
                item_views(items@),
                times@.map_values(|t: i64| t as int),
                p as int,
            );
            match r {
                Some(d) => row == Some(d@) && is_kept(d@, *opts),
                None => row is None || !is_kept(row->Some_0, *opts),
            }
        }),
{
    let ghost all = item_views(items@);
    let ghost ms = times@.map_values(|t: i64| t as int);
    assert(all[p as int] == items@[p as int]@);
    let (current, model) = match &items[p].kind {
        TimelineKind::Inference { context_tokens, model } => (*context_tokens, model.clone()),
        _ => {
            return None;
        },
    };
    let q: usize = match find_previous(items, p) {
        Some(q) => q,
        None => {
            return None;
        },
    };
    assert(all[q as int] == items@[q as int]@);
    let prior: u64 = match &items[q].kind {
        TimelineKind::Inference { context_tokens, .. } => *context_tokens,
        _ => 0,
    };
    let mut intervening = find_steps(items, q, p);
    proof {
        lemma_steps_not_compacted(all.subrange(q + 1, p as int), all[p as int].rail);
    }
    let ghost steps = step_views(intervening@);
    let between = any_between(times, items[q].end_ms, items[p].start_ms);
    assert(between == some_between(
        ms,
        all[q as int].end_ms as int,
        all[p as int].start_ms as int,
    )) by {
        let lo = all[q as int].end_ms as int;
        let hi = all[p as int].start_ms as int;
        if between {
            let i = choose|i: int| 0 <= i < times@.len() && lo <= #[trigger] times@[i] <= hi;
            assert(ms[i] == times@[i]);
        }
        if some_between(ms, lo, hi) {
            let i = choose|i: int| 0 <= i < ms.len() && lo <= #[trigger] ms[i] <= hi;
            assert(ms[i] == times@[i]);
        }
    }
    let compacted = current < prior && between;
    let delta: i64 = if compacted {
        intervening.push(InterveningStep::Compaction { tokens_freed: prior - current });
        assert(step_views(intervening@) =~= steps.push(
            StepView::Compaction { tokens_freed: (prior - current) as u64 },
        ));
        0
    } else {
        current as i64 - prior as i64
    };
    let row = ContextDelta {
        session_id: items[p].session_id.clone(),
        turn_id: items[p].turn_id.clone(),
        inference_idx: count_inferences(items, p),
        owner_rail: copy_rail(&items[p].owner),
        prior_context_tokens: prior,
        current_context_tokens: current,
        delta_tokens: delta,
        intervening,
        model,
    };
    assert(row@ == row_between(all, ms, q as int, p as int));
    assert(compacted == is_compacted(row@));
    if !rail_passes_filter(&row.owner_rail, opts.owner) {
        return None;
    }
    if !compacted && (delta < 0 || (delta as u64) < opts.effective_min_delta()) {
        return None;
    }
    Some(row)
}

fn rail_less(a: &OwnerRail, b: &OwnerRail) -> (r: bool)
    ensures
        r == rail_before(a@, b@),
{
    match (a, b) {
        (OwnerRail::Main, OwnerRail::Subagent { .. }) => true,
        (OwnerRail::Subagent { agent_id: x }, OwnerRail::Subagent { agent_id: y }) => text::less(
            x.as_str(),
            y.as_str(),
        ),
        _ => false,
    }
}

impl Ordered for ContextDelta {
    open spec fn before(self, other: Self) -> bool {
        row_before(self@, other@)
    }

    fn is_before(&self, other: &Self) -> (r: bool) {
        if self.delta_tokens != other.delta_tokens {
            self.delta_tokens > other.delta_tokens
        } else if !text::same(self.turn_id.as_str(), other.turn_id.as_str()) {
            text::less(self.turn_id.as_str(), other.turn_id.as_str())
        } else if self.inference_idx != other.inference_idx {
            self.inference_idx < other.inference_idx
        } else if !same_rail(&self.owner_rail, &other.owner_rail) {
            rail_less(&self.owner_rail, &other.owner_rail)
        } else {
            text::less(self.session_id.as_str(), other.session_id.as_str())
        }
    }
}

/// The changes of a session, the largest first.
pub fn deltas_for_session(
    trees: &[TurnSpanTree],
    compactions: &[CompactionEvent],
    opts: &ContextDeltaOpts,
) -> (r: Vec<ContextDelta>)
    requires
        session_fits(trees@),
    ensures
        row_views(r@) == deltas_of(trees@, compactions@, *opts),
{
    let items = build_timeline(trees);
    let times = find_times(compactions);
    let ghost all = timeline(trees@);
    let ghost ms = compaction_times(compactions@);
    assert(times@.map_values(|t: i64| t as int) =~= ms);
    let mut out: Vec<ContextDelta> = Vec::new();
    let mut p: usize = 0;
    assert(row_views(out@) =~= Seq::<RowView>::empty());
    while p < items.len()
        invariant
            p <= items@.len(),
            items@.len() < u32::MAX,
            all == item_views(items@),
            contexts_fit(all),
            times@.map_values(|t: i64| t as int) == ms,
            row_views(out@) == rows_of(all, ms, *opts, p as int),
        decreases items@.len() - p,
    {
        match find_row(&items, &times, p, opts) {
            Some(row) => {
                let ghost before = row_views(out@);
                out.push(row);
                assert(row_views(out@) =~= before.push(row@));
            },
            None => {},
        }
        p = p + 1;
    }
    let ghost given = out@;
    let mut sorted = order::sort(out);
    proof {
        let f = |d: ContextDelta| d@;
        assert(row_views(given) =~= given.map_values(f));
        order::lemma_sort_map(given, f, order::order_of::<ContextDelta>(), row_order());
        assert(row_views(sorted@) =~= sorted@.map_values(f));
    }
    let top: usize = opts.effective_top() as usize;
    let ghost whole = sorted@;
    if sorted.len() > top {
        sorted.truncate(top);
        assert(row_views(sorted@) =~= row_views(whole).take(top as int));
    }
    sorted
}

/// The order of rows is a strict order.
pub proof fn lemma_row_order()
    ensures
        order::strict_weak(row_order()),
{
    let lt = row_order();
    assert forall|a: RowView| !#[trigger] lt(a, a) by {
        text::lemma_str_lt(a.session, a.session, a.session);
    }
    assert forall|a: RowView, b: RowView, c: RowView| #[trigger]
        lt(a, b) && #[trigger] lt(b, c) implies lt(a, c) by {
        lemma_row_triple(a, b, c);
    }
    assert forall|a: RowView, b: RowView, c: RowView| #[trigger] lt(a, c) implies lt(a, b)
        || #[trigger] lt(b, c) by {
        lemma_row_triple(a, b, c);
    }
}

proof fn lemma_row_triple(a: RowView, b: RowView, c: RowView)
    ensures
        row_before(a, b) && row_before(b, c) ==> row_before(a, c),
        row_before(a, c) ==> row_before(a, b) || row_before(b, c),
{
    lemma_str_triple(a.turn, b.turn, c.turn);
    lemma_str_triple(a.session, b.session, c.session);
    match (a.rail, b.rail, c.rail) {
        (Some(x), Some(y), Some(z)) => {
            lemma_str_triple(x, y, z);
        },
        (Some(x), Some(y), None) => {
            lemma_str_triple(x, y, x);
        },
        (Some(x), None, Some(z)) => {
            lemma_str_triple(x, z, x);
        },
        (None, Some(y), Some(z)) => {
            lemma_str_triple(y, z, y);
        },
        _ => {},
    }
}

proof fn lemma_str_triple(a: Seq<char>, b: Seq<char>, c: Seq<char>)
    ensures
        !text::str_lt(a, a) && !text::str_lt(b, b) && !text::str_lt(c, c),
        text::str_lt(a, b) && text::str_lt(b, c) ==> text::str_lt(a, c),
        text::str_lt(a, b) || text::str_lt(b, a) || a == b,
        text::str_lt(b, c) || text::str_lt(c, b) || b == c,
        text::str_lt(a, c) || text::str_lt(c, a) || a == c,
        !(text::str_lt(a, b) && text::str_lt(b, a)),
        !(text::str_lt(b, c) && text::str_lt(c, b)),
        !(text::str_lt(a, c) && text::str_lt(c, a)),
        text::str_lt(a, c) && text::str_lt(c, b) ==> text::str_lt(a, b),
        text::str_lt(b, a) && text::str_lt(a, c) ==> text::str_lt(b, c),
{
    text::lemma_str_lt(a, b, c);
    text::lemma_str_lt(b, c, b);
    text::lemma_str_lt(c, a, c);
    text::lemma_str_lt(a, b, a);
    text::lemma_str_lt(a, c, b);
    text::lemma_str_lt(b, a, c);
    text::lemma_str_lt(a, c, a);
}

/// The rows come largest change first.
pub proof fn lemma_deltas_descend(
    trees: Seq<TurnSpanTree>,
    events: Seq<CompactionEvent>,
    opts: ContextDeltaOpts,
    i: int,
    j: int,
)
    requires
        0 <= i < j < deltas_of(trees, events, opts).len(),
    ensures
        deltas_of(trees, events, opts)[i].delta >= deltas_of(trees, events, opts)[j].delta,
{
    let items = timeline(trees);
    let rows = rows_of(items, compaction_times(events), opts, items.len() as int);
    let s = order::stable_sort(rows, row_order());
    lemma_row_order();
    order::lemma_sort_in_order(rows, row_order());
    assert(!row_order()(s[j], s[i]));
}

proof fn lemma_rows_kept(
    items: Seq<ItemView>,
    times: Seq<int>,
    opts: ContextDeltaOpts,
    n: int,
)
    requires
        0 <= n <= items.len(),
    ensures
        forall|i: int|
            0 <= i < rows_of(items, times, opts, n).len() ==> exists|p: int|
                0 <= p < n && row_at(items, times, p) == Some(
                    #[trigger] rows_of(items, times, opts, n)[i],
                ) && #[trigger] is_position(p) && is_kept(
                    rows_of(items, times, opts, n)[i],
                    opts,
                ),
    decreases n,
{
    if n > 0 {
        lemma_rows_kept(items, times, opts, n - 1);
        let rest = rows_of(items, times, opts, n - 1);
        let rows = rows_of(items, times, opts, n);
        assert forall|i: int| 0 <= i < rows.len() implies exists|p: int|
            0 <= p < n && row_at(items, times, p) == Some(#[trigger] rows[i])
                && #[trigger] is_position(p) && is_kept(rows[i], opts) by {
            if i < rest.len() {
                assert(rest[i] == rows[i]);
                let p = choose|p: int|
                    0 <= p < n - 1 && row_at(items, times, p) == Some(rest[i])
                        && #[trigger] is_position(p) && is_kept(rest[i], opts);
                assert(is_position(p));
            } else {
                assert(is_position(n - 1));
            }
        }
    }
}

spec fn is_position(p: int) -> bool {
    true
}

/// A change that is reported is never negative, and a row without a compaction
/// is at least as large as was asked for.
pub proof fn lemma_deltas_not_negative(
    trees: Seq<TurnSpanTree>,
    events: Seq<CompactionEvent>,
    opts: ContextDeltaOpts,
    i: int,
)
    requires
        0 <= i < deltas_of(trees, events, opts).len(),
    ensures
        deltas_of(trees, events, opts)[i].delta >= 0,
        !is_compacted(deltas_of(trees, events, opts)[i]) ==> deltas_of(
            trees,
            events,
            opts,
        )[i].delta >= opts.floor(),
        passes(deltas_of(trees, events, opts)[i].rail, opts.owner),
{
    let items = timeline(trees);
    let times = compaction_times(events);
    let rows = rows_of(items, times, opts, items.len() as int);
    let s = order::stable_sort(rows, row_order());
    order::lemma_sort_inside(rows, row_order());
    assert(rows.contains(s[i]));
    let k = choose|k: int| 0 <= k < rows.len() && rows[k] == s[i];
    lemma_rows_kept(items, times, opts, items.len() as int);
    let p = choose|p: int|
        0 <= p < items.len() && row_at(items, times, p) == Some(rows[k])
            && #[trigger] is_position(p) && is_kept(rows[k], opts);
    let q = last_inference_on(items.take(p), items[p].rail)->Some_0;
    let steps = steps_on(items.subrange(q + 1, p), items[p].rail);
    lemma_steps_not_compacted(items.subrange(q + 1, p), items[p].rail);
    if rows[k].steps == steps && steps.len() > 0 {
        assert(!(steps[steps.len() - 1] is Compaction));
    }
}

/// Rails do not see each other: the steps on a rail are those of the items that
/// stand on it, whatever stands between them.
pub proof fn lemma_rails_are_apart(items: Seq<ItemView>, rail: Option<Seq<char>>)
    ensures
        steps_on(items, rail) == steps_on(
            streaks::pick(items, |x: ItemView| x.rail == rail),
            rail,
        ),
        inferences_on(items, rail) == inferences_on(
            streaks::pick(items, |x: ItemView| x.rail == rail),
            rail,
        ),
    decreases items.len(),
{
    let p = |x: ItemView| x.rail == rail;
    if items.len() > 0 {
        let d = items.drop_last();
        lemma_rails_are_apart(d, rail);
        if items.last().rail == rail {
            let picked = streaks::pick(d, p).push(items.last());
            assert(streaks::pick(items, p) == picked);
            assert(picked.drop_last() =~= streaks::pick(d, p));
            assert(picked.last() == items.last());
        } else {
            assert(streaks::pick(items, p) == streaks::pick(d, p));
        }
    }
}

proof fn lemma_inferences_grow(items: Seq<ItemView>, rail: Option<Seq<char>>, i: int, j: int)
    requires
        0 <= i <= j <= items.len(),
    ensures
        inferences_on(items.take(i), rail) <= inferences_on(items.take(j), rail),
    decreases j - i,
{
    if i < j {
        assert(items.take(i + 1).drop_last() =~= items.take(i));
        lemma_inferences_grow(items, rail, i + 1, j);
    }
}

/// No two rows tie: two inferences on one rail have different positions on it,
/// so the order in which rails are looked at does not matter.
pub proof fn lemma_rows_never_tie(items: Seq<ItemView>, times: Seq<int>, p: int, q: int)
    requires
        0 <= p < q < items.len(),
        row_at(items, times, p) is Some,
        row_at(items, times, q) is Some,
    ensures
        row_before(row_at(items, times, p)->Some_0, row_at(items, times, q)->Some_0) || row_before(
            row_at(items, times, q)->Some_0,
            row_at(items, times, p)->Some_0,
        ),
{
    let a = row_at(items, times, p)->Some_0;
    let b = row_at(items, times, q)->Some_0;
    lemma_str_triple(a.turn, b.turn, a.turn);
    match (a.rail, b.rail) {
        (Some(x), Some(y)) => {
            lemma_str_triple(x, y, x);
        },
        _ => {},
    }
    if a.rail == b.rail {
        lemma_inferences_grow(items, a.rail, p + 1, q);
        assert(items.take(q + 1).drop_last() =~= items.take(q));
        assert(items.take(q + 1).last() == items[q]);
    }
}

} // verus!
