//! What the graph of a session shows of its spans.

use crate::flow_graph;
use crate::flow_graph::{
    Draft, FlowEdgeKind, FlowNodeKind, NodeView, RailDraft, ToolDraft, TurnDraft, TurnTokens,
};
use crate::laws::spans;
use crate::span_tree::{SpanKind, SpanNode, TurnSpanTree};
use crate::text;
use vstd::prelude::*;

verus! {

/// Whether the counter is what the span counts under the key, 0 where that is
/// negative.
pub open spec fn counted(counter: u64, span: SpanNode, key: Seq<char>) -> bool {
    forall|v: int| #[trigger]
        spans::counts(span, key, v) ==> counter == if v >= 0 {
            v
        } else {
            0
        }
}

/// Whether each counter is what the span counts under the key of its name.
pub open spec fn counts_tokens(tokens: TurnTokens, span: SpanNode) -> bool {
    &&& counted(tokens.input, span, "tokens.input"@)
    &&& counted(tokens.output, span, "tokens.output"@)
    &&& counted(tokens.cache_read, span, "tokens.cache_read"@)
    &&& counted(tokens.cache_write, span, "tokens.cache_write"@)
    &&& counted(tokens.reasoning, span, "tokens.reasoning"@)
}

/// Whether the span is a tool use or a skill.
pub open spec fn uses_tool(span: SpanNode) -> bool {
    span.kind == SpanKind::ToolUse || span.kind == SpanKind::Skill
}

/// Whether the node shows the span of the turn.
pub open spec fn draws(n: NodeView, span: SpanNode, t: TurnSpanTree) -> bool {
    &&& n.turn_number == t.turn_number
    &&& n.x == 96 * t.turn_number
    &&& n.status == span.status
    &&& n.duration_ms == if 0 < span.start_ms <= span.end_ms {
        span.end_ms - span.start_ms
    } else {
        0
    }
    &&& n.kind == FlowNodeKind::Inference <==> span.kind == SpanKind::Inference
    &&& n.kind == FlowNodeKind::ToolUse <==> span.kind == SpanKind::ToolUse
    &&& n.kind == FlowNodeKind::Skill <==> span.kind == SpanKind::Skill
    &&& n.kind == FlowNodeKind::Subagent <==> span.kind == SpanKind::Subagent
    &&& !uses_tool(span) ==> counts_tokens(n.tokens, span)
    &&& uses_tool(span) ==> n.tokens == TurnTokens {
        input: 0,
        output: 0,
        cache_read: 0,
        cache_write: 0,
        reasoning: 0,
    } && n.model is None && n.label == span.name@
    &&& uses_tool(span) ==> forall|id: Seq<char>| #[trigger]
        spans::says(span, "tool_use_id"@, Some(id)) ==> n.id == t.turn_id@ + ":tu-"@ + id
    &&& span.kind == SpanKind::Inference ==> forall|m: Option<Seq<char>>| #[trigger]
        spans::says(span, "model"@, m) ==> match m {
            Some(m) => n.label == m && n.model == Some(m),
            None => n.label == span.name@ && (n.model is Some ==> n.model == Some(span.name@)
                && n.rail == 0),
        }
    &&& span.kind == SpanKind::Subagent ==> n.model is None && forall|a: Option<Seq<char>>| #[trigger]
        spans::says(span, "agent_type"@, a) ==> match a {
            Some(a) => n.label == a,
            None => n.label == if span.name@ != Seq::<char>::empty() {
                span.name@
            } else {
                "subagent"@
            },
        }
    &&& span.kind == SpanKind::Subagent ==> forall|id: Seq<char>| #[trigger]
        spans::says(span, "agent_id"@, Some(id)) ==> n.id == t.turn_id@ + ":sa-"@ + id
}

/// Whether a node on the rail shows the span.
pub open spec fn drawn(d: Draft, span: SpanNode, t: TurnSpanTree, rail: int) -> bool {
    exists|p: int|
        0 <= p < d.nodes.len() && draws(#[trigger] d.nodes[p], span, t) && d.nodes[p].rail == rail
}

spec fn grows(a: Draft, b: Draft) -> bool {
    a.nodes.len() <= b.nodes.len() && forall|p: int|
        0 <= p < a.nodes.len() ==> #[trigger] b.nodes[p] == a.nodes[p]
}

proof fn lemma_drawn_grows(a: Draft, b: Draft, span: SpanNode, t: TurnSpanTree, rail: int)
    requires
        grows(a, b),
        drawn(a, span, t, rail),
    ensures
        drawn(b, span, t, rail),
{
    let p = choose|p: int|
        0 <= p < a.nodes.len() && draws(#[trigger] a.nodes[p], span, t) && a.nodes[p].rail == rail;
    assert(b.nodes[p] == a.nodes[p]);
}

proof fn lemma_drawn_last(d: Draft, n: NodeView, span: SpanNode, t: TurnSpanTree)
    requires
        draws(n, span, t),
    ensures
        grows(d, d.node(n)),
        drawn(d.node(n), span, t, n.rail),
{
    assert(d.node(n).nodes[d.nodes.len() as int] == n);
}

proof fn lemma_tokens(span: SpanNode)
    ensures
        counts_tokens(flow_graph::span_tokens(span), span),
{
    assert forall|key: Seq<char>, v: int| #[trigger] spans::counts(span, key, v) implies
        flow_graph::counter(span, key) == (if v >= 0 {
        v
    } else {
        0
    }) by {
        spans::lemma_counts(span, key, v);
    }
}

proof fn lemma_texts(span: SpanNode, key: Seq<char>)
    ensures
        forall|s: Option<Seq<char>>| #[trigger]
            spans::says(span, key, s) ==> s == crate::span_tree::string_attr(span, key),
{
    assert forall|s: Option<Seq<char>>| #[trigger] spans::says(span, key, s) implies s
        == crate::span_tree::string_attr(span, key) by {
        spans::lemma_says(span, key, s);
    }
}

proof fn lemma_all_texts(span: SpanNode)
    ensures
        forall|s: Option<Seq<char>>| #[trigger]
            spans::says(span, "tool_use_id"@, s) ==> s == crate::span_tree::string_attr(
                span,
                "tool_use_id"@,
            ),
        forall|s: Option<Seq<char>>| #[trigger]
            spans::says(span, "model"@, s) ==> s == crate::span_tree::string_attr(span, "model"@),
        forall|s: Option<Seq<char>>| #[trigger]
            spans::says(span, "agent_type"@, s) ==> s == crate::span_tree::string_attr(
                span,
                "agent_type"@,
            ),
        forall|s: Option<Seq<char>>| #[trigger]
            spans::says(span, "agent_id"@, s) ==> s == crate::span_tree::string_attr(
                span,
                "agent_id"@,
            ),
        span.name@.len() == 0 ==> span.name@ == Seq::<char>::empty(),
{
    lemma_texts(span, "tool_use_id"@);
    lemma_texts(span, "model"@);
    lemma_texts(span, "agent_type"@);
    lemma_texts(span, "agent_id"@);
    if span.name@.len() == 0 {
        assert(span.name@ =~= Seq::<char>::empty());
    }
}

proof fn lemma_rail_step(st: RailDraft, t: TurnSpanTree, rail: int, span: SpanNode)
    requires
        rail != 0,
    ensures
        grows(st.draft, flow_graph::rail_step(st, t, rail, span).draft),
        span.kind == SpanKind::Inference || uses_tool(span) ==> drawn(
            flow_graph::rail_step(st, t, rail, span).draft,
            span,
            t,
            rail,
        ) && flow_graph::rail_step(st, t, rail, span).draft.nodes.len() == st.draft.nodes.len() + 1
            && draws(
            flow_graph::rail_step(st, t, rail, span).draft.nodes.last(),
            span,
            t,
        ) && flow_graph::rail_step(st, t, rail, span).draft.nodes.last().rail == rail,
        !(span.kind == SpanKind::Inference || uses_tool(span)) ==> flow_graph::rail_step(
            st,
            t,
            rail,
            span,
        ) == st,
{
    lemma_tokens(span);
    lemma_all_texts(span);
    let d = flow_graph::rail_step(st, t, rail, span).draft;
    if span.kind == SpanKind::Inference || uses_tool(span) {
        let n = d.nodes.last();
        assert(d.nodes == st.draft.nodes.push(n));
        assert(draws(n, span, t));
        assert(d.nodes[st.draft.nodes.len() as int] == n);
    }
}

proof fn lemma_rail_grows(st: RailDraft, t: TurnSpanTree, rail: int, node: SpanNode)
    requires
        rail != 0,
    ensures
        grows(st.draft, flow_graph::rail_walk(st, t, rail, node).draft),
    decreases node,
{
    lemma_rail_step(st, t, rail, node);
    lemma_rail_kids_grow(flow_graph::rail_step(st, t, rail, node), t, rail, node.children@);
}

proof fn lemma_rail_kids_grow(st: RailDraft, t: TurnSpanTree, rail: int, kids: Seq<SpanNode>)
    requires
        rail != 0,
    ensures
        grows(st.draft, flow_graph::rail_kids(st, t, rail, kids).draft),
    decreases kids,
{
    if kids.len() > 0 {
        lemma_rail_kids_grow(st, t, rail, kids.drop_last());
        lemma_rail_grows(
            flow_graph::rail_kids(st, t, rail, kids.drop_last()),
            t,
            rail,
            kids.last(),
        );
    }
}

proof fn lemma_rail_kids_from(
    st: RailDraft,
    t: TurnSpanTree,
    rail: int,
    kids: Seq<SpanNode>,
    i: int,
)
    requires
        rail != 0,
        0 <= i <= kids.len(),
    ensures
        grows(
            flow_graph::rail_kids(st, t, rail, kids.take(i)).draft,
            flow_graph::rail_kids(st, t, rail, kids).draft,
        ),
    decreases kids.len(),
{
    if i < kids.len() {
        let d = kids.drop_last();
        lemma_rail_kids_from(st, t, rail, d, i);
        assert(d.take(i) =~= kids.take(i));
        lemma_rail_grows(flow_graph::rail_kids(st, t, rail, d), t, rail, kids.last());
    } else {
        assert(kids.take(i) =~= kids);
    }
}

/// The rail with the children of the `k`th span shows the last span of the way.
proof fn lemma_rail_draws(
    st: RailDraft,
    t: TurnSpanTree,
    rail: int,
    way: Seq<SpanNode>,
    k: int,
)
    requires
        rail != 0,
        spans::is_way(way, way[0]),
        0 <= k < way.len() - 1,
        way.last().kind == SpanKind::Inference || uses_tool(way.last()),
    ensures
        drawn(
            flow_graph::rail_kids(st, t, rail, way[k].children@).draft,
            way.last(),
            t,
            rail,
        ),
    decreases way.len() - k,
{
    let kids = way[k].children@;
    assert(way[k + 1 - 1].children@.contains(way[k + 1]));
    let i = choose|i: int| 0 <= i < kids.len() && kids[i] == way[k + 1];
    let before = flow_graph::rail_kids(st, t, rail, kids.take(i));
    let through = flow_graph::rail_kids(st, t, rail, kids.take(i + 1));
    assert(kids.take(i + 1).drop_last() =~= kids.take(i));
    assert(kids.take(i + 1).last() == kids[i]);
    assert(through == flow_graph::rail_walk(before, t, rail, kids[i]));
    let own = flow_graph::rail_step(before, t, rail, kids[i]);
    lemma_rail_step(before, t, rail, kids[i]);
    lemma_rail_kids_grow(own, t, rail, kids[i].children@);
    if k + 1 == way.len() - 1 {
        lemma_drawn_grows(own.draft, through.draft, way.last(), t, rail);
    } else {
        lemma_rail_draws(own, t, rail, way, k + 1);
    }
    lemma_rail_kids_from(st, t, rail, kids, i + 1);
    lemma_drawn_grows(
        through.draft,
        flow_graph::rail_kids(st, t, rail, kids).draft,
        way.last(),
        t,
        rail,
    );
}

proof fn lemma_with_rail(d: Draft, t: TurnSpanTree, sub: SpanNode, rail: int, y: int)
    requires
        rail != 0,
        sub.kind == SpanKind::Subagent,
    ensures
        grows(d, flow_graph::with_rail(d, t, sub, rail, y)),
        drawn(flow_graph::with_rail(d, t, sub, rail, y), sub, t, rail),
        forall|way: Seq<SpanNode>|
            #![trigger spans::is_way(way, sub)]
            spans::is_way(way, sub) && way.len() > 1 && (way.last().kind == SpanKind::Inference
                || uses_tool(way.last())) ==> drawn(
                flow_graph::with_rail(d, t, sub, rail, y),
                way.last(),
                t,
                rail,
            ),
{
    lemma_tokens(sub);
    lemma_all_texts(sub);
    let agent = flow_graph::agent_key(sub, rail);
    let head = flow_graph::rail_head(t, agent);
    let node = NodeView {
        tokens: flow_graph::span_tokens(sub),
        ..flow_graph::node_of(
            t,
            sub,
            FlowNodeKind::Subagent,
            head,
            flow_graph::rail_label(sub),
            rail,
            y,
        )
    };
    assert(draws(node, sub, t));
    lemma_drawn_last(d, node, sub, t);
    let start = RailDraft { draft: d.node(node), prev: head, y };
    let end = flow_graph::rail_kids(start, t, rail, sub.children@);
    lemma_rail_kids_grow(start, t, rail, sub.children@);
    lemma_drawn_grows(d.node(node), end.draft, sub, t, rail);
    let all = flow_graph::with_rail(d, t, sub, rail, y);
    assert(all.nodes == end.draft.nodes);
    lemma_drawn_grows(end.draft, all, sub, t, rail);
    assert forall|way: Seq<SpanNode>|
        #![trigger spans::is_way(way, sub)]
        spans::is_way(way, sub) && way.len() > 1 && (way.last().kind == SpanKind::Inference
            || uses_tool(way.last())) implies drawn(all, way.last(), t, rail) by {
        lemma_rail_draws(start, t, rail, way, 0);
        lemma_drawn_grows(end.draft, all, way.last(), t, rail);
    }
}

/// Whether the graph shows the subagent and all inferences and tool uses below
/// it, on one rail that is not the main one.
pub open spec fn rail_drawn(d: Draft, sub: SpanNode, t: TurnSpanTree) -> bool {
    exists|rail: int|
        rail > 0 && #[trigger] drawn(d, sub, t, rail) && forall|way: Seq<SpanNode>|
            #![trigger spans::is_way(way, sub)]
            spans::is_way(way, sub) && way.len() > 1 && (way.last().kind == SpanKind::Inference
                || uses_tool(way.last())) ==> drawn(d, way.last(), t, rail)
}

proof fn lemma_rail_drawn_grows(a: Draft, b: Draft, sub: SpanNode, t: TurnSpanTree)
    requires
        grows(a, b),
        rail_drawn(a, sub, t),
    ensures
        rail_drawn(b, sub, t),
{
    let rail = choose|rail: int|
        rail > 0 && #[trigger] drawn(a, sub, t, rail) && forall|way: Seq<SpanNode>|
            #![trigger spans::is_way(way, sub)]
            spans::is_way(way, sub) && way.len() > 1 && (way.last().kind == SpanKind::Inference
                || uses_tool(way.last())) ==> drawn(a, way.last(), t, rail);
    lemma_drawn_grows(a, b, sub, t, rail);
    assert forall|way: Seq<SpanNode>|
        #![trigger spans::is_way(way, sub)]
        spans::is_way(way, sub) && way.len() > 1 && (way.last().kind == SpanKind::Inference
            || uses_tool(way.last())) implies drawn(b, way.last(), t, rail) by {
        lemma_drawn_grows(a, b, way.last(), t, rail);
    }
}

proof fn lemma_dispatches(
    d: Draft,
    t: TurnSpanTree,
    from: Seq<char>,
    y: int,
    kids: Seq<SpanNode>,
)
    requires
        d.next_rail >= 0,
    ensures
        grows(d, flow_graph::with_dispatches(d, t, from, y, kids)),
        flow_graph::with_dispatches(d, t, from, y, kids).next_rail >= 0,
        forall|i: int|
            0 <= i < kids.len() && (#[trigger] kids[i]).kind == SpanKind::Subagent ==> rail_drawn(
                flow_graph::with_dispatches(d, t, from, y, kids),
                kids[i],
                t,
            ),
    decreases kids.len(),
{
    let all = flow_graph::with_dispatches(d, t, from, y, kids);
    if kids.len() > 0 {
        let k = kids.drop_last();
        let before = flow_graph::with_dispatches(d, t, from, y, k);
        lemma_dispatches(d, t, from, y, k);
        let sub = kids.last();
        if sub.kind == SpanKind::Subagent {
            let rail = before.next_rail + 1;
            let more = Draft { next_rail: rail, ..before };
            let next = flow_graph::with_rail(more, t, sub, rail, y + flow_graph::RAIL_GAP);
            lemma_with_rail(more, t, sub, rail, y + flow_graph::RAIL_GAP);
            lemma_rail_number(more, t, sub, rail, y + flow_graph::RAIL_GAP);
            assert(rail_drawn(next, sub, t));
            assert(all.nodes == next.nodes);
            assert(grows(next, all));
            lemma_rail_drawn_grows(next, all, sub, t);
            assert(grows(before, all));
        }
        assert forall|i: int|
            0 <= i < kids.len() && (#[trigger] kids[i]).kind == SpanKind::Subagent implies rail_drawn(
            all,
            kids[i],
            t,
        ) by {
            if i < k.len() {
                assert(k[i] == kids[i]);
                lemma_rail_drawn_grows(before, all, kids[i], t);
            }
        }
    }
}

proof fn lemma_rail_number(d: Draft, t: TurnSpanTree, sub: SpanNode, rail: int, y: int)
    ensures
        flow_graph::with_rail(d, t, sub, rail, y).next_rail == d.next_rail,
{
    let agent = flow_graph::agent_key(sub, rail);
    let head = flow_graph::rail_head(t, agent);
    let node = NodeView {
        tokens: flow_graph::span_tokens(sub),
        ..flow_graph::node_of(
            t,
            sub,
            FlowNodeKind::Subagent,
            head,
            flow_graph::rail_label(sub),
            rail,
            y,
        )
    };
    lemma_kids_number(RailDraft { draft: d.node(node), prev: head, y }, t, rail, sub.children@);
}

proof fn lemma_walk_number(st: RailDraft, t: TurnSpanTree, rail: int, node: SpanNode)
    ensures
        flow_graph::rail_walk(st, t, rail, node).draft.next_rail == st.draft.next_rail,
    decreases node,
{
    lemma_kids_number(flow_graph::rail_step(st, t, rail, node), t, rail, node.children@);
}

proof fn lemma_kids_number(st: RailDraft, t: TurnSpanTree, rail: int, kids: Seq<SpanNode>)
    ensures
        flow_graph::rail_kids(st, t, rail, kids).draft.next_rail == st.draft.next_rail,
    decreases kids,
{
    if kids.len() > 0 {
        lemma_kids_number(st, t, rail, kids.drop_last());
        lemma_walk_number(
            flow_graph::rail_kids(st, t, rail, kids.drop_last()),
            t,
            rail,
            kids.last(),
        );
    }
}

/// Whether the graph shows the tool use on the main rail, and the subagents
/// that it dispatches on rails of their own.
pub open spec fn tool_drawn(d: Draft, tool: SpanNode, t: TurnSpanTree) -> bool {
    drawn(d, tool, t, 0) && forall|i: int|
        0 <= i < tool.children@.len() && (#[trigger] tool.children@[i]).kind == SpanKind::Subagent
            ==> rail_drawn(d, tool.children@[i], t)
}

proof fn lemma_tool_drawn_grows(a: Draft, b: Draft, tool: SpanNode, t: TurnSpanTree)
    requires
        grows(a, b),
        tool_drawn(a, tool, t),
    ensures
        tool_drawn(b, tool, t),
{
    lemma_drawn_grows(a, b, tool, t, 0);
    assert forall|i: int|
        0 <= i < tool.children@.len() && (#[trigger] tool.children@[i]).kind
            == SpanKind::Subagent implies rail_drawn(b, tool.children@[i], t) by {
        lemma_rail_drawn_grows(a, b, tool.children@[i], t);
    }
}

proof fn lemma_tools(st: ToolDraft, t: TurnSpanTree, kids: Seq<SpanNode>)
    requires
        st.draft.next_rail >= 0,
    ensures
        grows(st.draft, flow_graph::tool_steps(st, t, kids).draft),
        flow_graph::tool_steps(st, t, kids).draft.next_rail >= 0,
        forall|i: int|
            0 <= i < kids.len() && uses_tool(#[trigger] kids[i]) ==> tool_drawn(
                flow_graph::tool_steps(st, t, kids).draft,
                kids[i],
                t,
            ),
    decreases kids.len(),
{
    let all = flow_graph::tool_steps(st, t, kids).draft;
    if kids.len() > 0 {
        let k = kids.drop_last();
        let before = flow_graph::tool_steps(st, t, k);
        lemma_tools(st, t, k);
        let tool = kids.last();
        if uses_tool(tool) {
            let y = before.y + flow_graph::RAIL_GAP;
            let id = flow_graph::tool_id(t, tool, before.draft.nodes.len());
            let node = flow_graph::node_of(
                t,
                tool,
                flow_graph::tool_kind(tool),
                id,
                tool.name@,
                0,
                y,
            );
            lemma_all_texts(tool);
            assert(draws(node, tool, t));
            let own = before.draft.node(node);
            let d = own.edge(before.prev, id, FlowEdgeKind::Default);
            lemma_drawn_last(before.draft, node, tool, t);
            lemma_drawn_grows(own, d, tool, t, 0);
            lemma_dispatches(d, t, id, y, tool.children@);
            lemma_drawn_grows(d, all, tool, t, 0);
            assert(grows(before.draft, all));
        }
        assert forall|i: int| 0 <= i < kids.len() && uses_tool(#[trigger] kids[i]) implies tool_drawn(
            all,
            kids[i],
            t,
        ) by {
            if i < k.len() {
                assert(k[i] == kids[i]);
                lemma_tool_drawn_grows(before.draft, all, kids[i], t);
            }
        }
    }
}

/// The number of inferences among the first `c` spans.
pub open spec fn inferences_before(kids: Seq<SpanNode>, c: int) -> nat {
    kids.take(c).filter(|s: SpanNode| s.kind == SpanKind::Inference).len()
}

/// Whether the graph shows the `c`th child of the root of the turn: an inference
/// on the main rail under its number, with its tool uses, or a subagent on a
/// rail of its own.
pub open spec fn child_drawn(d: Draft, t: TurnSpanTree, c: int) -> bool {
    let child = t.root.children@[c];
    &&& child.kind == SpanKind::Inference ==> exists|p: int|
        0 <= p < d.nodes.len() && draws(#[trigger] d.nodes[p], child, t) && d.nodes[p].rail == 0
            && d.nodes[p].id == t.turn_id@ + ":inf-"@ + text::decimal(
            inferences_before(t.root.children@, c),
        )
    &&& child.kind == SpanKind::Inference ==> forall|i: int|
        0 <= i < child.children@.len() && uses_tool(#[trigger] child.children@[i]) ==> tool_drawn(
            d,
            child.children@[i],
            t,
        )
    &&& child.kind == SpanKind::Subagent ==> rail_drawn(d, child, t)
}

proof fn lemma_child_drawn_grows(a: Draft, b: Draft, t: TurnSpanTree, c: int)
    requires
        grows(a, b),
        child_drawn(a, t, c),
    ensures
        child_drawn(b, t, c),
{
    let child = t.root.children@[c];
    if child.kind == SpanKind::Inference {
        let p = choose|p: int|
            0 <= p < a.nodes.len() && draws(#[trigger] a.nodes[p], child, t) && a.nodes[p].rail
                == 0 && a.nodes[p].id == t.turn_id@ + ":inf-"@ + text::decimal(
                inferences_before(t.root.children@, c),
            );
        assert(b.nodes[p] == a.nodes[p]);
        assert forall|i: int|
            0 <= i < child.children@.len() && uses_tool(
                #[trigger] child.children@[i],
            ) implies tool_drawn(b, child.children@[i], t) by {
            lemma_tool_drawn_grows(a, b, child.children@[i], t);
        }
    }
    if child.kind == SpanKind::Subagent {
        lemma_rail_drawn_grows(a, b, child, t);
    }
}

proof fn lemma_turn(st: TurnDraft, t: TurnSpanTree, n: int)
    requires
        st.draft.next_rail >= 0,
        st.index == 0,
        0 <= n <= t.root.children@.len(),
    ensures
        ({
            let end = flow_graph::turn_steps(st, t, t.root.children@.take(n));
            &&& grows(st.draft, end.draft)
            &&& end.draft.next_rail >= 0
            &&& end.index == inferences_before(t.root.children@, n)
            &&& forall|c: int| 0 <= c < n ==> #[trigger] child_drawn(end.draft, t, c)
        }),
    decreases n,
{
    reveal(Seq::filter);
    let kids = t.root.children@;
    let end = flow_graph::turn_steps(st, t, kids.take(n));
    if n > 0 {
        let before = flow_graph::turn_steps(st, t, kids.take(n - 1));
        lemma_turn(st, t, n - 1);
        assert(kids.take(n).drop_last() =~= kids.take(n - 1));
        assert(kids.take(n).last() == kids[n - 1]);
        assert(end == flow_graph::turn_step(before, t, kids[n - 1]));
        let child = kids[n - 1];
        if child.kind == SpanKind::Inference {
            let d = flow_graph::with_inference(before, t, child);
            lemma_tokens(child);
            lemma_all_texts(child);
            let x = d.nodes.last();
            assert(d.nodes == before.draft.nodes.push(x));
            assert(draws(x, child, t));
            assert(d.nodes[before.draft.nodes.len() as int] == x);
            assert(grows(before.draft, d));
            lemma_tools(
                ToolDraft {
                    draft: d,
                    prev: flow_graph::inference_id(t, before.index),
                    y: before.y,
                },
                t,
                child.children@,
            );
            assert(end.draft.nodes[before.draft.nodes.len() as int] == x);
        } else if child.kind == SpanKind::Subagent {
            let rail = before.draft.next_rail + 1;
            let more = Draft { next_rail: rail, ..before.draft };
            let d = flow_graph::with_rail(more, t, child, rail, before.y + flow_graph::RAIL_GAP);
            lemma_with_rail(more, t, child, rail, before.y + flow_graph::RAIL_GAP);
            lemma_rail_number(more, t, child, rail, before.y + flow_graph::RAIL_GAP);
            assert(rail_drawn(d, child, t));
            assert(end.draft.nodes == d.nodes);
            assert(grows(d, end.draft));
            lemma_rail_drawn_grows(d, end.draft, child, t);
        }
        assert(grows(before.draft, end.draft));
        assert(child_drawn(end.draft, t, n - 1));
        assert forall|c: int| 0 <= c < n implies #[trigger] child_drawn(end.draft, t, c) by {
            if c < n - 1 {
                lemma_child_drawn_grows(before.draft, end.draft, t, c);
            }
        }
    } else {
        assert(kids.take(0) =~= Seq::<SpanNode>::empty());
    }
}

proof fn lemma_turn_drawn(d: Draft, t: TurnSpanTree)
    requires
        d.next_rail >= 0,
    ensures
        grows(d, flow_graph::with_turn(d, t)),
        flow_graph::with_turn(d, t).next_rail >= 0,
        forall|c: int|
            0 <= c < t.root.children@.len() ==> #[trigger] child_drawn(
                flow_graph::with_turn(d, t),
                t,
                c,
            ),
{
    let kids = t.root.children@;
    let n = kids.len() as int;
    let start = flow_graph::turn_start(d, t);
    assert(kids.take(n) =~= kids);
    lemma_turn(start, t, n);
    let end = flow_graph::turn_steps(start, t, kids);
    let all = flow_graph::with_turn(d, t);
    assert(all.nodes == end.draft.nodes);
    assert forall|c: int| 0 <= c < n implies #[trigger] child_drawn(all, t, c) by {
        lemma_child_drawn_grows(end.draft, all, t, c);
    }
}

proof fn lemma_drafted(trees: Seq<TurnSpanTree>)
    ensures
        flow_graph::drafted(trees).next_rail >= 0,
    decreases trees.len(),
{
    if trees.len() > 0 {
        lemma_drafted(trees.drop_last());
        lemma_turn_drawn(flow_graph::drafted(trees.drop_last()), trees.last());
    }
}

/// The graph shows every inference of a turn, with its counters under their own
/// names, on the main rail; every tool use and skill of these inferences; every
/// subagent that these dispatch or that stands in the turn by itself; and every
/// inference, tool use and skill below a subagent, on its rail.
pub proof fn lemma_graph_is_complete(trees: Seq<TurnSpanTree>, i: int, c: int)
    requires
        0 <= i < trees.len(),
        0 <= c < trees[i].root.children@.len(),
    ensures
        child_drawn(flow_graph::drafted(trees), trees[i], c),
    decreases trees.len(),
{
    let d = trees.drop_last();
    lemma_drafted(d);
    lemma_turn_drawn(flow_graph::drafted(d), trees.last());
    if i < d.len() {
        lemma_graph_is_complete(d, i, c);
        lemma_child_drawn_grows(
            flow_graph::drafted(d),
            flow_graph::drafted(trees),
            trees[i],
            c,
        );
    }
}

/// Whether the node shows a span of the turn.
#[verifier::opaque]
pub open spec fn shows_some(n: NodeView, t: TurnSpanTree) -> bool {
    exists|span: SpanNode| #[trigger] spans::reached(span, t.root) && draws(n, span, t)
}

proof fn lemma_shows(n: NodeView, span: SpanNode, t: TurnSpanTree)
    requires
        spans::reached(span, t.root),
        draws(n, span, t),
    ensures
        shows_some(n, t),
{
    reveal(shows_some);
}

spec fn all_new_shown(a: Draft, b: Draft, t: TurnSpanTree) -> bool {
    grows(a, b) && forall|p: int|
        a.nodes.len() <= p < b.nodes.len() ==> shows_some(#[trigger] b.nodes[p], t)
}

#[verifier::rlimit(30)]
proof fn lemma_rail_shows(
    st: RailDraft,
    t: TurnSpanTree,
    rail: int,
    node: SpanNode,
)
    requires
        rail != 0,
        spans::reached(node, t.root),
    ensures
        all_new_shown(st.draft, flow_graph::rail_walk(st, t, rail, node).draft, t),
    decreases node,
{
    let own = flow_graph::rail_step(st, t, rail, node);
    lemma_rail_step(st, t, rail, node);
    if node.kind == SpanKind::Inference || uses_tool(node) {
        lemma_shows(own.draft.nodes.last(), node, t);
    }
    assert(all_new_shown(st.draft, own.draft, t));
    assert forall|i: int| 0 <= i < node.children@.len() implies spans::reached(#[trigger] node.children@[i], t.root) by {
        spans::lemma_reached_on(node, t.root, i);
    }
    lemma_rail_kids_show(own, t, rail, node.children@);
    lemma_shown_on(
        st.draft,
        own.draft,
        flow_graph::rail_walk(st, t, rail, node).draft,
        t,
    );
}

proof fn lemma_rail_kids_show(st: RailDraft, t: TurnSpanTree, rail: int, kids: Seq<SpanNode>)
    requires
        rail != 0,
        forall|i: int|
            0 <= i < kids.len() ==> spans::reached(#[trigger] kids[i], t.root),
    ensures
        all_new_shown(st.draft, flow_graph::rail_kids(st, t, rail, kids).draft, t),
    decreases kids,
{
    if kids.len() > 0 {
        let d = kids.drop_last();
        assert forall|i: int| 0 <= i < d.len() implies spans::reached(#[trigger] d[i], t.root) by {
            assert(d[i] == kids[i]);
        }
        lemma_rail_kids_show(st, t, rail, d);
        assert(kids[kids.len() - 1] == kids.last());
        let before = flow_graph::rail_kids(st, t, rail, d);
        lemma_rail_shows(before, t, rail, kids.last());
        lemma_shown_on(st.draft, before.draft, flow_graph::rail_kids(st, t, rail, kids).draft, t);
    }
}

proof fn lemma_shown_on(a: Draft, b: Draft, c: Draft, t: TurnSpanTree)
    requires
        all_new_shown(a, b, t),
        all_new_shown(b, c, t),
    ensures
        all_new_shown(a, c, t),
{
    assert forall|p: int| a.nodes.len() <= p < c.nodes.len() implies shows_some(
        #[trigger] c.nodes[p],
        t,
    ) by {
        if p < b.nodes.len() {
            assert(c.nodes[p] == b.nodes[p]);
        }
    }
    assert forall|p: int| 0 <= p < a.nodes.len() implies #[trigger] c.nodes[p] == a.nodes[p] by {
        assert(b.nodes[p] == a.nodes[p]);
    }
}

proof fn lemma_with_rail_shows(
    d: Draft,
    t: TurnSpanTree,
    sub: SpanNode,
    rail: int,
    y: int,
)
    requires
        rail != 0,
        sub.kind == SpanKind::Subagent,
        spans::reached(sub, t.root),
    ensures
        all_new_shown(d, flow_graph::with_rail(d, t, sub, rail, y), t),
{
    lemma_tokens(sub);
    lemma_all_texts(sub);
    let agent = flow_graph::agent_key(sub, rail);
    let head = flow_graph::rail_head(t, agent);
    let node = NodeView {
        tokens: flow_graph::span_tokens(sub),
        ..flow_graph::node_of(
            t,
            sub,
            FlowNodeKind::Subagent,
            head,
            flow_graph::rail_label(sub),
            rail,
            y,
        )
    };
    assert(draws(node, sub, t));
    lemma_shows(node, sub, t);
    let start = RailDraft { draft: d.node(node), prev: head, y };
    let end = flow_graph::rail_kids(start, t, rail, sub.children@);
    assert forall|i: int| 0 <= i < sub.children@.len() implies spans::reached(#[trigger] sub.children@[i], t.root) by {
        spans::lemma_reached_on(sub, t.root, i);
    }
    lemma_rail_kids_show(start, t, rail, sub.children@);
    assert(all_new_shown(d, start.draft, t));
    lemma_shown_on(d, start.draft, end.draft, t);
    assert(flow_graph::with_rail(d, t, sub, rail, y).nodes == end.draft.nodes);
}

#[verifier::rlimit(30)]
proof fn lemma_dispatches_show(
    d: Draft,
    t: TurnSpanTree,
    from: Seq<char>,
    y: int,
    kids: Seq<SpanNode>,
)
    requires
        d.next_rail >= 0,
        forall|i: int|
            0 <= i < kids.len() ==> spans::reached(#[trigger] kids[i], t.root),
    ensures
        all_new_shown(d, flow_graph::with_dispatches(d, t, from, y, kids), t),
    decreases kids.len(),
{
    if kids.len() > 0 {
        let k = kids.drop_last();
        assert forall|i: int| 0 <= i < k.len() implies spans::reached(#[trigger] k[i], t.root) by {
            assert(k[i] == kids[i]);
        }
        let all = flow_graph::with_dispatches(d, t, from, y, kids);
        let before = flow_graph::with_dispatches(d, t, from, y, k);
        lemma_dispatches_show(d, t, from, y, k);
        lemma_dispatches(d, t, from, y, k);
        let sub = kids.last();
        if sub.kind == SpanKind::Subagent {
            assert(kids[kids.len() - 1] == sub);
            let rail = before.next_rail + 1;
            let more = Draft { next_rail: rail, ..before };
            lemma_with_rail_shows(more, t, sub, rail, y + flow_graph::RAIL_GAP);
            assert(all_new_shown(before, all, t));
            lemma_shown_on(d, before, all, t);
        }
    }
}

#[verifier::rlimit(50)]
proof fn lemma_tools_show(st: ToolDraft, t: TurnSpanTree, kids: Seq<SpanNode>)
    requires
        st.draft.next_rail >= 0,
        forall|i: int|
            0 <= i < kids.len() ==> spans::reached(#[trigger] kids[i], t.root),
    ensures
        all_new_shown(st.draft, flow_graph::tool_steps(st, t, kids).draft, t),
    decreases kids.len(),
{
    if kids.len() > 0 {
        let k = kids.drop_last();
        assert forall|i: int| 0 <= i < k.len() implies spans::reached(#[trigger] k[i], t.root) by {
            assert(k[i] == kids[i]);
        }
        let all = flow_graph::tool_steps(st, t, kids).draft;
        let before = flow_graph::tool_steps(st, t, k);
        lemma_tools_show(st, t, k);
        lemma_tools(st, t, k);
        let tool = kids.last();
        if uses_tool(tool) {
            assert(kids[kids.len() - 1] == tool);
            let y = before.y + flow_graph::RAIL_GAP;
            let id = flow_graph::tool_id(t, tool, before.draft.nodes.len());
            let node = flow_graph::node_of(
                t,
                tool,
                flow_graph::tool_kind(tool),
                id,
                tool.name@,
                0,
                y,
            );
            lemma_all_texts(tool);
            assert(draws(node, tool, t));
            lemma_shows(node, tool, t);
            let d = before.draft.node(node).edge(before.prev, id, FlowEdgeKind::Default);
            assert(all_new_shown(before.draft, d, t));
            assert forall|i: int| 0 <= i < tool.children@.len() implies spans::reached(#[trigger] tool.children@[i], t.root) by {
                spans::lemma_reached_on(tool, t.root, i);
            }
            lemma_dispatches_show(d, t, id, y, tool.children@);
            lemma_shown_on(before.draft, d, all, t);
            lemma_shown_on(st.draft, before.draft, all, t);
        }
    }
}

proof fn lemma_turn_shows(st: TurnDraft, t: TurnSpanTree, n: int)
    requires
        st.draft.next_rail >= 0,
        st.index == 0,
        0 <= n <= t.root.children@.len(),
    ensures
        all_new_shown(
            st.draft,
            flow_graph::turn_steps(st, t, t.root.children@.take(n)).draft,
            t,
        ),
    decreases n,
{
    let kids = t.root.children@;
    let end = flow_graph::turn_steps(st, t, kids.take(n));
    if n > 0 {
        let before = flow_graph::turn_steps(st, t, kids.take(n - 1));
        lemma_turn_shows(st, t, n - 1);
        lemma_turn(st, t, n - 1);
        assert(kids.take(n).drop_last() =~= kids.take(n - 1));
        assert(kids.take(n).last() == kids[n - 1]);
        assert(end == flow_graph::turn_step(before, t, kids[n - 1]));
        let child = kids[n - 1];
        spans::lemma_reached_root(t.root);
        spans::lemma_reached_on(t.root, t.root, n - 1);
        if child.kind == SpanKind::Inference {
            let d = flow_graph::with_inference(before, t, child);
            lemma_tokens(child);
            lemma_all_texts(child);
            let x = d.nodes.last();
            assert(d.nodes == before.draft.nodes.push(x));
            assert(draws(x, child, t));
            lemma_shows(x, child, t);
            assert(all_new_shown(before.draft, d, t));
            assert forall|i: int| 0 <= i < child.children@.len() implies spans::reached(#[trigger] child.children@[i], t.root) by {
                spans::lemma_reached_on(child, t.root, i);
            }
            lemma_tools_show(
                ToolDraft {
                    draft: d,
                    prev: flow_graph::inference_id(t, before.index),
                    y: before.y,
                },
                t,
                child.children@,
            );
            lemma_shown_on(before.draft, d, end.draft, t);
        } else if child.kind == SpanKind::Subagent {
            let rail = before.draft.next_rail + 1;
            let more = Draft { next_rail: rail, ..before.draft };
            lemma_with_rail_shows(more, t, child, rail, before.y + flow_graph::RAIL_GAP);
        }
        assert(all_new_shown(before.draft, end.draft, t));
        lemma_shown_on(st.draft, before.draft, end.draft, t);
    } else {
        assert(kids.take(0) =~= Seq::<SpanNode>::empty());
    }
}

/// The graph shows nothing else: every node is that of a span of one of the
/// turns.
pub proof fn lemma_graph_is_sound(trees: Seq<TurnSpanTree>, p: int) -> (i: int)
    requires
        0 <= p < flow_graph::drafted(trees).nodes.len(),
    ensures
        0 <= i < trees.len(),
        shows_some(flow_graph::drafted(trees).nodes[p], trees[i]),
    decreases trees.len(),
{
    let d = trees.drop_last();
    let before = flow_graph::drafted(d);
    let t = trees.last();
    let kids = t.root.children@;
    let start = flow_graph::turn_start(before, t);
    let all = flow_graph::drafted(trees);
    lemma_drafted(d);
    assert(kids.take(kids.len() as int) =~= kids);
    lemma_turn_shows(start, t, kids.len() as int);
    assert(all.nodes == flow_graph::turn_steps(start, t, kids).draft.nodes);
    if p < before.nodes.len() {
        assert(all.nodes[p] == before.nodes[p]);
        lemma_graph_is_sound(d, p)
    } else {
        trees.len() - 1
    }
}

} // verus!
