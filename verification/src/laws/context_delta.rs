//! How the context of a session grows.

use crate::context_delta;
use crate::context_delta::{ContextDeltaOpts, ItemKind, ItemView, OwnerFilter, RowView, StepView};
use crate::laws::spans;
use crate::order;
use crate::records::CompactionEvent;
use crate::span_tree::{AttrValue, SpanKind, SpanNode, TurnSpanTree};
use crate::time;
use vstd::prelude::*;

verus! {

/// Whether what is below `node` stands on `below`, where the span itself is on
/// `rail`: a subagent opens a rail under its id.
pub open spec fn opens(node: SpanNode, rail: Option<Seq<char>>, below: Option<Seq<char>>) -> bool {
    if node.kind == SpanKind::Subagent {
        below is Some && (spans::says(node, "agent_id"@, below) || (below == Some(
            Seq::<char>::empty(),
        ) && spans::says(node, "agent_id"@, None)))
    } else {
        below == rail
    }
}

/// A way down from the root of a turn, with the rail that each span is on and
/// the tool use that it is below.
pub struct Path {
    pub nodes: Seq<SpanNode>,
    pub rails: Seq<Option<Seq<char>>>,
    pub tools: Seq<Seq<char>>,
}

/// Whether the path leads from span to child, beginning on the main rail and
/// below no tool use. A tool use with a name is what the results below it are
/// of.
pub open spec fn is_path(p: Path, root: SpanNode) -> bool {
    &&& p.nodes.len() > 0
    &&& p.rails.len() == p.nodes.len()
    &&& p.tools.len() == p.nodes.len()
    &&& p.nodes[0] == root
    &&& p.rails[0] is None
    &&& p.tools[0] == Seq::<char>::empty()
    &&& forall|k: int| 0 < k < p.nodes.len() ==> #[trigger] is_step(p, k)
}

/// Whether the `k`th span of the path is a child of the one before.
pub open spec fn is_step(p: Path, k: int) -> bool {
    let up = p.nodes[k - 1];
    &&& up.children@.contains(p.nodes[k])
    &&& opens(up, p.rails[k - 1], p.rails[k])
    &&& p.tools[k] == if up.kind == SpanKind::ToolUse && up.name@ != Seq::<char>::empty() {
        up.name@
    } else {
        p.tools[k - 1]
    }
}

/// Whether the item is that of the span, in the terms of its attributes.
pub open spec fn tells(
    item: ItemView,
    span: SpanNode,
    tree: TurnSpanTree,
    rail: Option<Seq<char>>,
    tool: Seq<char>,
) -> bool {
    &&& item.session == tree.session_id@
    &&& item.turn == tree.turn_id@
    &&& item.rail == rail
    &&& item.start_ms == span.start_ms
    &&& item.end_ms == span.end_ms
    &&& span.kind == SpanKind::Inference <==> item.kind is Inference
    &&& span.kind == SpanKind::ToolResult <==> item.kind is ToolResult
    &&& span.kind == SpanKind::UserPrompt <==> item.kind is UserPrompt
    &&& item.kind matches ItemKind::Inference { context_tokens, .. } ==> forall|
        a: int,
        b: int,
        c: int,
    |
        #![trigger spans::counts(span, "tokens.input"@, a), spans::counts(span, "tokens.cache_read"@, b), spans::counts(span, "tokens.cache_write"@, c)]
        spans::counts(span, "tokens.input"@, a) && spans::counts(span, "tokens.cache_read"@, b)
            && spans::counts(span, "tokens.cache_write"@, c) ==> context_tokens == if a + b + c > 0 {
            a + b + c
        } else {
            0
        }
    &&& item.kind matches ItemKind::Inference { model, .. } ==> forall|m: Option<Seq<char>>| #[trigger]
        spans::says(span, "model"@, m) ==> model == match m {
            Some(m) => m,
            None => span.name@,
        }
    &&& item.kind matches ItemKind::ToolResult { tool_name, .. } ==> tool_name == tool
    &&& item.kind matches ItemKind::ToolResult { bytes, .. } ==> forall|n: int| #[trigger]
        spans::counts(span, "output_bytes"@, n) ==> bytes == if n > 0 {
            n
        } else {
            0
        }
    &&& item.kind matches ItemKind::ToolResult { tool_use_id, .. } ==> forall|id: Seq<char>| #[trigger]
        spans::says(span, "tool_use_id"@, Some(id)) ==> tool_use_id == id
    &&& item.kind matches ItemKind::ToolResult { truncated, .. } ==> (spans::carries(
        span,
        "output_truncated"@,
        AttrValue::Bool(true),
    ) ==> truncated) && (spans::lacks(span, "output_truncated"@) || spans::carries(
        span,
        "output_truncated"@,
        AttrValue::Bool(false),
    ) ==> !truncated)
}

/// Whether the span is one that the timeline shows.
pub open spec fn is_shown(span: SpanNode) -> bool {
    span.kind == SpanKind::Inference || span.kind == SpanKind::ToolResult || span.kind
        == SpanKind::UserPrompt
}

proof fn lemma_own_item(
    span: SpanNode,
    tree: TurnSpanTree,
    rail: Option<Seq<char>>,
    tool: Seq<char>,
)
    ensures
        is_shown(span) <==> context_delta::own_item(span, tree, rail, tool) is Some,
        context_delta::own_item(span, tree, rail, tool) matches Some(item) ==> tells(
            item,
            span,
            tree,
            rail,
            tool,
        ),
{
    match context_delta::own_item(span, tree, rail, tool) {
        Some(item) => {
            assert forall|a: int, b: int, c: int|
                #![trigger spans::counts(span, "tokens.input"@, a), spans::counts(span, "tokens.cache_read"@, b), spans::counts(span, "tokens.cache_write"@, c)]
                spans::counts(span, "tokens.input"@, a) && spans::counts(
                    span,
                    "tokens.cache_read"@,
                    b,
                ) && spans::counts(span, "tokens.cache_write"@, c)
                implies context_delta::context_tokens(span) == if a + b + c > 0 {
                a + b + c
            } else {
                0
            } by {
                spans::lemma_counts(span, "tokens.input"@, a);
                spans::lemma_counts(span, "tokens.cache_read"@, b);
                spans::lemma_counts(span, "tokens.cache_write"@, c);
            }
            assert forall|m: Option<Seq<char>>| #[trigger]
                spans::says(span, "model"@, m) implies context_delta::model_of(span) == (match m {
                Some(m) => m,
                None => span.name@,
            }) by {
                spans::lemma_says(span, "model"@, m);
            }
            assert forall|n: int| #[trigger]
                spans::counts(span, "output_bytes"@, n) implies context_delta::output_bytes(span)
                == (if n > 0 {
                n
            } else {
                0
            }) by {
                spans::lemma_counts(span, "output_bytes"@, n);
            }
            assert forall|id: Seq<char>| #[trigger]
                spans::says(span, "tool_use_id"@, Some(id)) implies context_delta::text_attr(
                span,
                "tool_use_id"@,
            ) == id by {
                spans::lemma_says(span, "tool_use_id"@, Some(id));
            }
            spans::lemma_carries(span, "output_truncated"@, AttrValue::Bool(true));
            spans::lemma_carries(span, "output_truncated"@, AttrValue::Bool(false));
        },
        None => {},
    }
}

proof fn lemma_opens(node: SpanNode, rail: Option<Seq<char>>, below: Option<Seq<char>>)
    ensures
        opens(node, rail, below) <==> below == context_delta::rail_below(node, rail),
{
    spans::lemma_says(node, "agent_id"@, below);
    spans::lemma_says(node, "agent_id"@, None);
}

proof fn lemma_all_items(
    kids: Seq<SpanNode>,
    tree: TurnSpanTree,
    rail: Option<Seq<char>>,
    tool: Seq<char>,
    x: ItemView,
)
    ensures
        context_delta::items_of_all(kids, tree, rail, tool).contains(x) <==> exists|i: int|
            0 <= i < kids.len() && (#[trigger] context_delta::items_of(
                kids[i],
                tree,
                rail,
                tool,
            )).contains(x),
    decreases kids.len(),
{
    let all = context_delta::items_of_all(kids, tree, rail, tool);
    if kids.len() > 0 {
        let d = kids.drop_last();
        lemma_all_items(d, tree, rail, tool, x);
        let before = context_delta::items_of_all(d, tree, rail, tool);
        let own = context_delta::items_of(kids.last(), tree, rail, tool);
        lemma_in_sum(before, own, x);
        assert(kids[kids.len() - 1] == kids.last());
        if before.contains(x) {
            let i = choose|i: int|
                0 <= i < d.len() && (#[trigger] context_delta::items_of(
                    d[i],
                    tree,
                    rail,
                    tool,
                )).contains(x);
            assert(context_delta::items_of(kids[i], tree, rail, tool).contains(x));
        }
        if exists|i: int|
            0 <= i < kids.len() && (#[trigger] context_delta::items_of(
                kids[i],
                tree,
                rail,
                tool,
            )).contains(x) {
            let i = choose|i: int|
                0 <= i < kids.len() && (#[trigger] context_delta::items_of(
                    kids[i],
                    tree,
                    rail,
                    tool,
                )).contains(x);
            if i < d.len() {
                assert(context_delta::items_of(d[i], tree, rail, tool).contains(x));
            }
        }
    }
}

proof fn lemma_in_sum<T>(a: Seq<T>, b: Seq<T>, x: T)
    ensures
        (a + b).contains(x) <==> a.contains(x) || b.contains(x),
{
    let s = a + b;
    if s.contains(x) {
        let i = choose|i: int| 0 <= i < s.len() && s[i] == x;
        if i < a.len() {
            assert(a[i] == x);
        } else {
            assert(b[i - a.len()] == x);
        }
    }
    if a.contains(x) {
        let i = choose|i: int| 0 <= i < a.len() && a[i] == x;
        assert(s[i] == x);
    }
    if b.contains(x) {
        let i = choose|i: int| 0 <= i < b.len() && b[i] == x;
        assert(s[i + a.len()] == x);
    }
}

proof fn lemma_item_stands(p: Path, tree: TurnSpanTree, k: int)
    requires
        is_path(p, tree.root),
        0 <= k < p.nodes.len(),
        is_shown(p.nodes.last()),
    ensures
        context_delta::items_of(p.nodes[k], tree, p.rails[k], p.tools[k]).contains(
            context_delta::own_item(p.nodes.last(), tree, p.rails.last(), p.tools.last())->Some_0,
        ),
    decreases p.nodes.len() - k,
{
    let last = p.nodes.len() - 1;
    let node = p.nodes[k];
    let x = context_delta::own_item(p.nodes.last(), tree, p.rails.last(), p.tools.last())->Some_0;
    lemma_own_item(p.nodes.last(), tree, p.rails.last(), p.tools.last());
    let below = context_delta::rail_below(node, p.rails[k]);
    let named = context_delta::tool_below(node, p.tools[k]);
    let rest = context_delta::items_of_all(node.children@, tree, below, named);
    let all = context_delta::items_of(node, tree, p.rails[k], p.tools[k]);
    if k == last {
        assert(all[0] == x);
    } else {
        assert(is_step(p, k + 1));
        lemma_opens(node, p.rails[k], p.rails[k + 1]);
        assert(node.name@.len() == 0 ==> node.name@ =~= Seq::<char>::empty());
        lemma_item_stands(p, tree, k + 1);
        let i = choose|i: int| 0 <= i < node.children@.len() && node.children@[i] == p.nodes[k + 1];
        assert(context_delta::items_of(node.children@[i], tree, below, named).contains(x));
        lemma_all_items(node.children@, tree, below, named, x);
        match context_delta::own_item(node, tree, p.rails[k], p.tools[k]) {
            Some(own) => {
                lemma_in_sum(seq![own], rest, x);
            },
            None => {},
        }
    }
}

/// Every inference, tool result and user prompt of a turn stands on the
/// timeline, on its own rail, and says what its attributes say. The context of
/// an inference is its uncached input, what it reads from the cache and what it
/// writes into it, together.
pub proof fn lemma_spans_are_shown(trees: Seq<TurnSpanTree>, i: int, path: Path) -> (p: int)
    requires
        0 <= i < trees.len(),
        is_path(path, trees[i].root),
        is_shown(path.nodes.last()),
    ensures
        0 <= p < context_delta::timeline(trees).len(),
        tells(
            context_delta::timeline(trees)[p],
            path.nodes.last(),
            trees[i],
            path.rails.last(),
            path.tools.last(),
        ),
    decreases trees.len(),
{
    let all = context_delta::timeline(trees);
    let d = trees.drop_last();
    if i == trees.len() - 1 {
        let own = context_delta::items_of(trees[i].root, trees[i], None, Seq::empty());
        lemma_item_stands(path, trees[i], 0);
        lemma_own_item(path.nodes.last(), trees[i], path.rails.last(), path.tools.last());
        let x = context_delta::own_item(
            path.nodes.last(),
            trees[i],
            path.rails.last(),
            path.tools.last(),
        )->Some_0;
        assert(own.contains(x));
        lemma_in_sum(context_delta::timeline(d), own, x);
        choose|p: int| 0 <= p < all.len() && all[p] == x
    } else {
        let p = lemma_spans_are_shown(d, i, path);
        assert(all[p] == context_delta::timeline(d)[p]);
        p
    }
}

proof fn lemma_item_path(p: Path, tree: TurnSpanTree, x: ItemView) -> (r: Path)
    requires
        is_path(p, tree.root),
        context_delta::items_of(p.nodes.last(), tree, p.rails.last(), p.tools.last()).contains(x),
    ensures
        is_path(r, tree.root),
        is_shown(r.nodes.last()),
        tells(x, r.nodes.last(), tree, r.rails.last(), r.tools.last()),
    decreases p.nodes.last(),
{
    let node = p.nodes.last();
    let n = p.nodes.len() as int;
    let below = context_delta::rail_below(node, p.rails.last());
    let named = context_delta::tool_below(node, p.tools.last());
    let rest = context_delta::items_of_all(node.children@, tree, below, named);
    let own = context_delta::own_item(node, tree, p.rails.last(), p.tools.last());
    lemma_own_item(node, tree, p.rails.last(), p.tools.last());
    if own == Some(x) {
        p
    } else {
        match own {
            Some(o) => {
                lemma_in_sum(seq![o], rest, x);
                if seq![o].contains(x) {
                    assert(seq![o][0] == x);
                }
            },
            None => {},
        }
        assert(rest.contains(x));
        lemma_all_items(node.children@, tree, below, named, x);
        let i = choose|i: int|
            0 <= i < node.children@.len() && (#[trigger] context_delta::items_of(
                node.children@[i],
                tree,
                below,
                named,
            )).contains(x);
        let q = Path {
            nodes: p.nodes.push(node.children@[i]),
            rails: p.rails.push(below),
            tools: p.tools.push(named),
        };
        lemma_opens(node, p.rails.last(), below);
        assert(node.name@.len() == 0 ==> node.name@ =~= Seq::<char>::empty());
        assert forall|k: int| 0 < k < q.nodes.len() implies #[trigger] is_step(q, k) by {
            if k < n {
                assert(is_step(p, k));
            }
        }
        lemma_item_path(q, tree, x)
    }
}

/// Nothing else stands on the timeline.
pub proof fn lemma_items_are_spans(trees: Seq<TurnSpanTree>, p: int) -> (r: (int, Path))
    requires
        0 <= p < context_delta::timeline(trees).len(),
    ensures
        0 <= r.0 < trees.len(),
        is_path(r.1, trees[r.0].root),
        is_shown(r.1.nodes.last()),
        tells(
            context_delta::timeline(trees)[p],
            r.1.nodes.last(),
            trees[r.0],
            r.1.rails.last(),
            r.1.tools.last(),
        ),
    decreases trees.len(),
{
    let all = context_delta::timeline(trees);
    let d = trees.drop_last();
    let before = context_delta::timeline(d);
    if p < before.len() {
        assert(all[p] == before[p]);
        lemma_items_are_spans(d, p)
    } else {
        let tree = trees.last();
        let own = context_delta::items_of(tree.root, tree, None, Seq::empty());
        assert(own[p - before.len()] == all[p]);
        let start = Path {
            nodes: seq![tree.root],
            rails: seq![None],
            tools: seq![Seq::<char>::empty()],
        };
        (trees.len() - 1, lemma_item_path(start, tree, all[p]))
    }
}

/// Whether the inference at `p` is the next one on its rail after that at `q`.
pub open spec fn follows(items: Seq<ItemView>, q: int, p: int) -> bool {
    &&& 0 <= q < p < items.len()
    &&& items[q].kind is Inference && items[p].kind is Inference
    &&& items[q].rail == items[p].rail
    &&& forall|k: int|
        q < k < p && (#[trigger] items[k]).kind is Inference ==> items[k].rail != items[p].rail
}

/// The context of an inference.
pub open spec fn context_at(items: Seq<ItemView>, p: int) -> int {
    items[p].kind->Inference_context_tokens
}

/// Whether a compaction fell between the two inferences.
pub open spec fn compacted_between(
    items: Seq<ItemView>,
    events: Seq<CompactionEvent>,
    q: int,
    p: int,
) -> bool {
    exists|e: int|
        0 <= e < events.len() && items[q].end_ms <= (match time::iso_ms(
            (#[trigger] events[e]).ts@,
        ) {
            Some(ms) => ms,
            None => 0,
        }) <= items[p].start_ms
}

/// Whether the step is what the item is to the next inference: a result with a
/// token for every four bytes, or a prompt.
pub open spec fn is_step_of(step: StepView, item: ItemView) -> bool {
    match item.kind {
        ItemKind::ToolResult { tool_use_id, tool_name, bytes, truncated } => match step {
            StepView::ToolResult {
                tool_use_id: id,
                tool_name: name,
                approx_tokens,
                approx_bytes,
                truncated: cut,
            } => id == tool_use_id && name == tool_name && cut == truncated && approx_bytes
                == bytes && 4 * approx_tokens <= bytes < 4 * approx_tokens + 4,
            _ => false,
        },
        ItemKind::UserPrompt => step == StepView::UserPrompt {
            approx_tokens: 0,
            has_system_reminder: false,
        },
        ItemKind::Inference { .. } => false,
    }
}

/// What landed on the rail.
pub open spec fn landed(items: Seq<ItemView>, rail: Option<Seq<char>>) -> Seq<ItemView> {
    items.filter(|x: ItemView| x.rail == rail && !(x.kind is Inference))
}

/// The inferences on the rail.
pub open spec fn inferred(items: Seq<ItemView>, rail: Option<Seq<char>>) -> Seq<ItemView> {
    items.filter(|x: ItemView| x.rail == rail && x.kind is Inference)
}

/// Whether the row tells of the change from the inference at `q` to that at
/// `p`: what both contexts were, by how much the context grew, and what landed
/// on the rail in between. Where a compaction made it smaller, the row says how
/// much it freed, and that nothing was added.
pub open spec fn tells_growth(
    row: RowView,
    items: Seq<ItemView>,
    events: Seq<CompactionEvent>,
    q: int,
    p: int,
) -> bool {
    let a = context_at(items, q);
    let b = context_at(items, p);
    let between = landed(items.subrange(q + 1, p), items[p].rail);
    let freed = b < a && compacted_between(items, events, q, p);
    &&& row.session == items[p].session
    &&& row.turn == items[p].turn
    &&& row.rail == items[p].rail
    &&& row.model == items[p].kind->Inference_model
    &&& row.inference_idx == inferred(items.take(p + 1), items[p].rail).len()
    &&& row.prior == a
    &&& row.current == b
    &&& !freed ==> row.delta == b - a && row.steps.len() == between.len()
    &&& freed ==> row.delta == 0 && row.steps.len() == between.len() + 1 && row.steps.last()
        == (StepView::Compaction { tokens_freed: (a - b) as u64 })
    &&& forall|k: int| 0 <= k < between.len() ==> is_step_of(#[trigger] row.steps[k], between[k])
}

proof fn lemma_steps_landed(items: Seq<ItemView>, rail: Option<Seq<char>>)
    ensures
        context_delta::steps_on(items, rail).len() == landed(items, rail).len(),
        forall|k: int|
            0 <= k < landed(items, rail).len() ==> is_step_of(
                #[trigger] context_delta::steps_on(items, rail)[k],
                landed(items, rail)[k],
            ),
    decreases items.len(),
{
    reveal(Seq::filter);
    if items.len() > 0 {
        lemma_steps_landed(items.drop_last(), rail);
    }
}

proof fn lemma_inferred(items: Seq<ItemView>, rail: Option<Seq<char>>)
    ensures
        context_delta::inferences_on(items, rail) == inferred(items, rail).len(),
    decreases items.len(),
{
    reveal(Seq::filter);
    if items.len() > 0 {
        lemma_inferred(items.drop_last(), rail);
    }
}

proof fn lemma_last_inference(items: Seq<ItemView>, rail: Option<Seq<char>>)
    ensures
        match context_delta::last_inference_on(items, rail) {
            Some(q) => 0 <= q < items.len() && items[q].kind is Inference && items[q].rail == rail
                && forall|k: int|
                q < k < items.len() && (#[trigger] items[k]).kind is Inference ==> items[k].rail
                    != rail,
            None => forall|k: int|
                0 <= k < items.len() && (#[trigger] items[k]).kind is Inference ==> items[k].rail
                    != rail,
        },
    decreases items.len(),
{
    if items.len() > 0 {
        let d = items.drop_last();
        lemma_last_inference(d, rail);
        assert(forall|k: int| 0 <= k < d.len() ==> d[k] == items[k]);
    }
}

proof fn lemma_row_tells(
    items: Seq<ItemView>,
    events: Seq<CompactionEvent>,
    p: int,
)
    requires
        0 <= p < items.len(),
    ensures
        forall|q: int| #[trigger]
            follows(items, q, p) ==> context_delta::row_at(
                items,
                context_delta::compaction_times(events),
                p,
            ) is Some && tells_growth(
                context_delta::row_at(
                    items,
                    context_delta::compaction_times(events),
                    p,
                )->Some_0,
                items,
                events,
                q,
                p,
            ),
        context_delta::row_at(items, context_delta::compaction_times(events), p) is Some
            ==> exists|q: int| #[trigger] follows(items, q, p),
{
    let times = context_delta::compaction_times(events);
    let rail = items[p].rail;
    let before = items.take(p);
    lemma_last_inference(before, rail);
    assert(forall|k: int| 0 <= k < p ==> before[k] == items[k]);
    match context_delta::last_inference_on(before, rail) {
        Some(q) => {
            if items[p].kind is Inference {
                assert(follows(items, q, p));
            }
        },
        None => {},
    }
    assert forall|q: int| #[trigger] follows(items, q, p) implies context_delta::row_at(
        items,
        times,
        p,
    ) is Some && tells_growth(
        context_delta::row_at(items, times, p)->Some_0,
        items,
        events,
        q,
        p,
    ) by {
        assert(before[q].kind is Inference);
        let found = context_delta::last_inference_on(before, rail)->Some_0;
        if found < q {
            assert(before[q].rail == rail);
        }
        if q < found {
            assert(items[found].rail == rail);
        }
        assert(found == q);
        lemma_steps_landed(items.subrange(q + 1, p), rail);
        lemma_inferred(items.take(p + 1), rail);
        let lo = items[q].end_ms as int;
        let hi = items[p].start_ms as int;
        if context_delta::some_between(times, lo, hi) {
            let e = choose|e: int| 0 <= e < times.len() && lo <= #[trigger] times[e] <= hi;
            assert(events[e] == events[e]);
            assert(compacted_between(items, events, q, p));
        }
        if compacted_between(items, events, q, p) {
            let e = choose|e: int|
                0 <= e < events.len() && items[q].end_ms <= (match time::iso_ms(
                    (#[trigger] events[e]).ts@,
                ) {
                    Some(ms) => ms,
                    None => 0,
                }) <= items[p].start_ms;
            assert(lo <= times[e] <= hi);
        }
    }
}

proof fn lemma_row_listed(
    items: Seq<ItemView>,
    times: Seq<int>,
    opts: ContextDeltaOpts,
    n: int,
    p: int,
)
    requires
        0 <= p < n <= items.len(),
        context_delta::row_at(items, times, p) matches Some(row) && context_delta::is_kept(
            row,
            opts,
        ),
    ensures
        context_delta::rows_of(items, times, opts, n).contains(
            context_delta::row_at(items, times, p)->Some_0,
        ),
    decreases n,
{
    let all = context_delta::rows_of(items, times, opts, n);
    let rest = context_delta::rows_of(items, times, opts, n - 1);
    let row = context_delta::row_at(items, times, p)->Some_0;
    if p == n - 1 {
        assert(all[rest.len() as int] == row);
    } else {
        lemma_row_listed(items, times, opts, n - 1, p);
        let k = choose|k: int| 0 <= k < rest.len() && rest[k] == row;
        assert(all[k] == row);
    }
}

proof fn lemma_row_source(
    items: Seq<ItemView>,
    times: Seq<int>,
    opts: ContextDeltaOpts,
    n: int,
    i: int,
) -> (p: int)
    requires
        0 <= n <= items.len(),
        0 <= i < context_delta::rows_of(items, times, opts, n).len(),
    ensures
        0 <= p < n,
        context_delta::row_at(items, times, p) == Some(
            context_delta::rows_of(items, times, opts, n)[i],
        ),
        context_delta::is_kept(context_delta::rows_of(items, times, opts, n)[i], opts),
    decreases n,
{
    let rest = context_delta::rows_of(items, times, opts, n - 1);
    if i < rest.len() {
        lemma_row_source(items, times, opts, n - 1, i)
    } else {
        n - 1
    }
}

/// Whether the rail is one that was asked for.
pub open spec fn asked_for(rail: Option<Seq<char>>, owner: OwnerFilter) -> bool {
    match owner {
        OwnerFilter::All => true,
        OwnerFilter::Main => rail == None::<Seq<char>>,
        OwnerFilter::Subagent => rail != None::<Seq<char>>,
    }
}

/// Every growth of the context between one inference and the next on a rail is
/// reported that is as large as was asked for, 1000 tokens where nothing was
/// said; and so is every compaction that made it smaller. Where more rows were
/// found than asked for, 20 where nothing was said, those that are left out are
/// no larger than any that are listed.
pub proof fn lemma_growth_is_reported(
    trees: Seq<TurnSpanTree>,
    events: Seq<CompactionEvent>,
    opts: ContextDeltaOpts,
    q: int,
    p: int,
)
    requires
        follows(context_delta::timeline(trees), q, p),
        asked_for(context_delta::timeline(trees)[p].rail, opts.owner),
        ({
            let items = context_delta::timeline(trees);
            let a = context_at(items, q);
            let b = context_at(items, p);
            ||| b - a >= match opts.min_delta {
                Some(n) => n as int,
                None => 1000,
            }
            ||| b < a && compacted_between(items, events, q, p)
        }),
    ensures
        ({
            let items = context_delta::timeline(trees);
            let rows = context_delta::deltas_of(trees, events, opts);
            let most = match opts.top {
                Some(n) => n as int,
                None => 20,
            };
            let grown = if context_at(items, p) >= context_at(items, q) {
                context_at(items, p) - context_at(items, q)
            } else {
                0
            };
            &&& rows.len() <= most
            &&& (exists|k: int|
                0 <= k < rows.len() && tells_growth(#[trigger] rows[k], items, events, q, p)) || (
            rows.len() == most && forall|k: int|
                0 <= k < rows.len() ==> (#[trigger] rows[k]).delta >= grown)
        }),
{
    let items = context_delta::timeline(trees);
    let times = context_delta::compaction_times(events);
    let n = items.len() as int;
    let found = context_delta::rows_of(items, times, opts, n);
    let sorted = order::stable_sort(found, context_delta::row_order());
    let rows = context_delta::deltas_of(trees, events, opts);
    lemma_row_tells(items, events, p);
    let row = context_delta::row_at(items, times, p)->Some_0;
    assert(tells_growth(row, items, events, q, p));
    lemma_row_listed(items, times, opts, n, p);
    order::lemma_sort_multiset(found, context_delta::row_order());
    found.to_multiset_ensures();
    sorted.to_multiset_ensures();
    assert(found.to_multiset().count(row) > 0);
    assert(sorted.contains(row));
    let at = choose|at: int| 0 <= at < sorted.len() && sorted[at] == row;
    context_delta::lemma_row_order();
    order::lemma_sort_in_order(found, context_delta::row_order());
    if at < rows.len() {
        assert(rows[at] == row);
    } else {
        assert forall|k: int| 0 <= k < rows.len() implies (#[trigger] rows[k]).delta
            >= row.delta by {
            assert(rows[k] == sorted[k]);
            assert(!context_delta::row_order()(sorted[at], sorted[k]));
        }
    }
}

/// Every row that is reported is the change from one inference to the next on
/// a rail that was asked for, and it is as large as was asked for or tells of a
/// compaction.
pub proof fn lemma_rows_are_growth(
    trees: Seq<TurnSpanTree>,
    events: Seq<CompactionEvent>,
    opts: ContextDeltaOpts,
    k: int,
) -> (r: (int, int))
    requires
        0 <= k < context_delta::deltas_of(trees, events, opts).len(),
    ensures
        ({
            let items = context_delta::timeline(trees);
            let row = context_delta::deltas_of(trees, events, opts)[k];
            &&& follows(items, r.0, r.1)
            &&& tells_growth(row, items, events, r.0, r.1)
            &&& asked_for(row.rail, opts.owner)
            &&& row.delta >= (match opts.min_delta {
                Some(n) => n as int,
                None => 1000,
            }) || (row.current < row.prior && compacted_between(items, events, r.0, r.1))
        }),
{
    let items = context_delta::timeline(trees);
    let times = context_delta::compaction_times(events);
    let n = items.len() as int;
    let found = context_delta::rows_of(items, times, opts, n);
    let sorted = order::stable_sort(found, context_delta::row_order());
    let row = context_delta::deltas_of(trees, events, opts)[k];
    order::lemma_sort_inside(found, context_delta::row_order());
    assert(row == sorted[k]);
    let i = choose|i: int| 0 <= i < found.len() && found[i] == row;
    let p = lemma_row_source(items, times, opts, n, i);
    lemma_row_tells(items, events, p);
    let q = choose|q: int| #[trigger] follows(items, q, p);
    let between = landed(items.subrange(q + 1, p), items[p].rail);
    if !(row.current < row.prior && compacted_between(items, events, q, p)) {
        if row.steps.len() > 0 {
            let last = row.steps.len() - 1;
            assert(is_step_of(row.steps[last], between[last]));
        }
        assert(!context_delta::is_compacted(row));
    }
    (q, p)
}

} // verus!
