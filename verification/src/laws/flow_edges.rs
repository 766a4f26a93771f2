//! How the graph of a session joins its nodes.

use crate::flow_graph;
use crate::flow_graph::{
    CrossView, Draft, EdgeView, FlowEdgeKind, FlowNodeKind, FlowOpts, NodeView, RailDraft,
    TargetView, ToolDraft, TurnDraft,
};
use crate::span_tree::{SpanKind, SpanNode, TurnSpanTree};
use vstd::prelude::*;

verus! {

/// Whether node `q` is the next one on the rail of node `p`, in the same turn.
pub open spec fn is_next(nodes: Seq<NodeView>, p: int, q: int) -> bool {
    &&& 0 <= p < q < nodes.len()
    &&& nodes[p].rail == nodes[q].rail
    &&& nodes[p].turn_number == nodes[q].turn_number
    &&& forall|m: int| p < m < q ==> (#[trigger] nodes[m]).rail != nodes[q].rail
}

/// Whether the edge joins a node with the next one on its rail, which stands 32
/// below it.
pub open spec fn joins(nodes: Seq<NodeView>, e: EdgeView, p: int, q: int) -> bool {
    &&& is_next(nodes, p, q)
    &&& e.from == nodes[p].id
    &&& e.to == nodes[q].id
    &&& nodes[q].y == nodes[p].y + 32
    &&& e.kind == if nodes[q].rail == 0 {
        FlowEdgeKind::Default
    } else {
        FlowEdgeKind::Subagent
    }
}

/// Whether the edge joins two nodes that follow one another.
pub open spec fn is_link(nodes: Seq<NodeView>, e: EdgeView) -> bool {
    exists|p: int, q: int| #[trigger] joins(nodes, e, p, q)
}

/// How many nodes are not the head of a subagent.
pub open spec fn plain(nodes: Seq<NodeView>) -> nat {
    nodes.filter(|n: NodeView| n.kind != FlowNodeKind::Subagent).len()
}

/// How many nodes are the head of a subagent.
pub open spec fn heads(nodes: Seq<NodeView>) -> nat {
    nodes.filter(|n: NodeView| n.kind == FlowNodeKind::Subagent).len()
}

/// How many edges between rails lead back to the main one.
pub open spec fn returned(cross: Seq<CrossView>) -> nat {
    cross.filter(|c: CrossView| c.to is Return).len()
}

/// How many edges between rails lead to a subagent.
pub open spec fn dispatches(cross: Seq<CrossView>) -> nat {
    cross.filter(|c: CrossView| c.to is Node).len()
}

/// How many of the spans are subagents.
pub open spec fn subagents(kids: Seq<SpanNode>) -> nat {
    kids.filter(|k: SpanNode| k.kind == SpanKind::Subagent).len()
}

/// How many subagents the tools among the spans dispatch.
pub open spec fn dispatched_by(kids: Seq<SpanNode>) -> int {
    kids.fold_left(
        0int,
        |n: int, k: SpanNode|
            if k.kind == SpanKind::ToolUse || k.kind == SpanKind::Skill {
                n + subagents(k.children@)
            } else {
                n
            },
    )
}

/// How many subagents the tools of a turn dispatch.
pub open spec fn dispatched_in(kids: Seq<SpanNode>) -> int {
    kids.fold_left(
        0int,
        |n: int, k: SpanNode|
            if k.kind == SpanKind::Inference {
                n + dispatched_by(k.children@)
            } else {
                n
            },
    )
}

/// Whether the turn has an inference on the main rail.
pub open spec fn infers(t: TurnSpanTree) -> bool {
    exists|c: int|
        0 <= c < t.root.children@.len() && (#[trigger] t.root.children@[c]).kind
            == SpanKind::Inference
}

spec fn in_shape(d: Draft) -> bool {
    &&& d.next_rail >= 0
    &&& forall|p: int| 0 <= p < d.nodes.len() ==> 0 <= (#[trigger] d.nodes[p]).rail <= d.next_rail
    &&& forall|j: int| 0 <= j < d.edges.len() ==> is_link(d.nodes, #[trigger] d.edges[j])
}

spec fn spare(d: Draft) -> int {
    plain(d.nodes) - d.edges.len()
}

spec fn ends_with(
    d: Draft,
    rail: int,
    t: TurnSpanTree,
    id: Seq<char>,
    y: int,
    p: int,
) -> bool {
    &&& 0 <= p < d.nodes.len()
    &&& d.nodes[p].y == y
    &&& d.nodes[p].rail == rail
    &&& d.nodes[p].turn_number == t.turn_number
    &&& d.nodes[p].id == id
    &&& forall|m: int| p < m < d.nodes.len() ==> (#[trigger] d.nodes[m]).rail != rail
}

spec fn tail(d: Draft, rail: int, t: TurnSpanTree, id: Seq<char>, y: int) -> bool {
    exists|p: int| #[trigger] ends_with(d, rail, t, id, y, p)
}

spec fn grows_aside(a: Draft, b: Draft) -> bool {
    &&& a.nodes.len() <= b.nodes.len()
    &&& forall|p: int| 0 <= p < a.nodes.len() ==> #[trigger] b.nodes[p] == a.nodes[p]
    &&& forall|p: int| a.nodes.len() <= p < b.nodes.len() ==> (#[trigger] b.nodes[p]).rail > 0
}

proof fn lemma_counts(nodes: Seq<NodeView>, n: NodeView)
    ensures
        plain(nodes.push(n)) == plain(nodes) + (if n.kind != FlowNodeKind::Subagent {
            1nat
        } else {
            0nat
        }),
        heads(nodes.push(n)) == heads(nodes) + (if n.kind == FlowNodeKind::Subagent {
            1nat
        } else {
            0nat
        }),
{
    reveal(Seq::filter);
    assert(nodes.push(n).drop_last() =~= nodes);
}

proof fn lemma_cross_counts(cross: Seq<CrossView>, c: CrossView)
    ensures
        returned(cross.push(c)) == returned(cross) + (if c.to is Return {
            1nat
        } else {
            0nat
        }),
        dispatches(cross.push(c)) == dispatches(cross) + (if c.to is Node {
            1nat
        } else {
            0nat
        }),
{
    reveal(Seq::filter);
    assert(cross.push(c).drop_last() =~= cross);
}

proof fn lemma_links_grow(a: Seq<NodeView>, n: NodeView, e: EdgeView)
    requires
        is_link(a, e),
    ensures
        is_link(a.push(n), e),
{
    let b = a.push(n);
    let (p, q) = choose|p: int, q: int| #[trigger] joins(a, e, p, q);
    assert(b[p] == a[p] && b[q] == a[q]);
    assert forall|m: int| p < m < q implies (#[trigger] b[m]).rail != b[q].rail by {
        assert(b[m] == a[m]);
    }
    assert(joins(b, e, p, q));
}

proof fn lemma_head(d: Draft, n: NodeView)
    requires
        in_shape(d),
        0 <= n.rail <= d.next_rail,
    ensures
        in_shape(d.node(n)),
        ends_with_last(d.node(n), n),
        spare(d.node(n)) == spare(d) + (if n.kind != FlowNodeKind::Subagent {
            1int
        } else {
            0int
        }),
        heads(d.node(n).nodes) == heads(d.nodes) + (if n.kind == FlowNodeKind::Subagent {
            1nat
        } else {
            0nat
        }),
{
    let b = d.node(n);
    lemma_counts(d.nodes, n);
    assert forall|p: int| 0 <= p < b.nodes.len() implies 0 <= (#[trigger] b.nodes[p]).rail
        <= b.next_rail by {
        if p < d.nodes.len() {
            assert(b.nodes[p] == d.nodes[p]);
        }
    }
    assert forall|j: int| 0 <= j < b.edges.len() implies is_link(
        b.nodes,
        #[trigger] b.edges[j],
    ) by {
        assert(is_link(d.nodes, d.edges[j]));
        lemma_links_grow(d.nodes, n, d.edges[j]);
    }
}

spec fn ends_with_last(d: Draft, n: NodeView) -> bool {
    d.nodes.len() > 0 && d.nodes.last() == n
}

proof fn lemma_joined(d: Draft, n: NodeView, t: TurnSpanTree, prev: Seq<char>, y: int)
    requires
        in_shape(d),
        0 <= n.rail <= d.next_rail,
        n.turn_number == t.turn_number,
        n.kind != FlowNodeKind::Subagent,
        n.y == y + 32,
        tail(d, n.rail, t, prev, y),
    ensures
        ({
            let b = d.node(n).edge(
                prev,
                n.id,
                if n.rail == 0 {
                    FlowEdgeKind::Default
                } else {
                    FlowEdgeKind::Subagent
                },
            );
            &&& in_shape(b)
            &&& tail(b, n.rail, t, n.id, n.y)
            &&& spare(b) == spare(d)
            &&& heads(b.nodes) == heads(d.nodes)
        }),
{
    lemma_head(d, n);
    let kind = if n.rail == 0 {
        FlowEdgeKind::Default
    } else {
        FlowEdgeKind::Subagent
    };
    let a = d.node(n);
    let b = a.edge(prev, n.id, kind);
    let p = choose|p: int| #[trigger] ends_with(d, n.rail, t, prev, y, p);
    let q = d.nodes.len() as int;
    assert(a.nodes[p] == d.nodes[p]);
    assert(a.nodes[q] == n);
    assert forall|m: int| p < m < q implies (#[trigger] a.nodes[m]).rail != a.nodes[q].rail by {
        assert(a.nodes[m] == d.nodes[m]);
    }
    let e = EdgeView { from: prev, to: n.id, kind };
    assert(joins(a.nodes, e, p, q));
    assert(is_link(b.nodes, e));
    assert forall|j: int| 0 <= j < b.edges.len() implies is_link(
        b.nodes,
        #[trigger] b.edges[j],
    ) by {
        if j < a.edges.len() {
            assert(b.edges[j] == a.edges[j]);
        } else {
            assert(b.edges[j] == e);
        }
    }
    assert(ends_with(b, n.rail, t, n.id, n.y, q));
}

proof fn lemma_tail_stays(a: Draft, b: Draft, t: TurnSpanTree, id: Seq<char>, y: int)
    requires
        grows_aside(a, b),
        tail(a, 0, t, id, y),
    ensures
        tail(b, 0, t, id, y),
{
    let p = choose|p: int| #[trigger] ends_with(a, 0, t, id, y, p);
    assert(b.nodes[p] == a.nodes[p]);
    assert forall|m: int| p < m < b.nodes.len() implies (#[trigger] b.nodes[m]).rail != 0 by {
        if m < a.nodes.len() {
            assert(b.nodes[m] == a.nodes[m]);
        }
    }
    assert(ends_with(b, 0, t, id, y, p));
}

spec fn same_books(a: Draft, b: Draft) -> bool {
    a.cross == b.cross && a.unattached == b.unattached && a.next_rail == b.next_rail && heads(
        a.nodes,
    ) == heads(b.nodes) && spare(a) == spare(b) && grows_aside(a, b)
}

spec fn rail_ready(st: RailDraft, t: TurnSpanTree, rail: int) -> bool {
    in_shape(st.draft) && 0 < rail <= st.draft.next_rail && tail(
        st.draft,
        rail,
        t,
        st.prev,
        st.y,
    )
}

proof fn lemma_rail_step(st: RailDraft, t: TurnSpanTree, rail: int, inner: SpanNode)
    requires
        rail_ready(st, t, rail),
    ensures
        rail_ready(flow_graph::rail_step(st, t, rail, inner), t, rail),
        same_books(st.draft, flow_graph::rail_step(st, t, rail, inner).draft),
{
    let out = flow_graph::rail_step(st, t, rail, inner);
    if inner.kind == SpanKind::Inference || flow_graph::is_tool(inner) {
        let n = out.draft.nodes.last();
        lemma_joined(st.draft, n, t, st.prev, st.y);
        let b = st.draft.node(n).edge(st.prev, n.id, FlowEdgeKind::Subagent);
        assert(out.draft.nodes == b.nodes && out.draft.edges == b.edges);
        let q = choose|q: int| #[trigger] ends_with(b, rail, t, n.id, n.y, q);
        assert(ends_with(out.draft, rail, t, out.prev, out.y, q));
        assert forall|j: int| 0 <= j < out.draft.edges.len() implies is_link(
            out.draft.nodes,
            #[trigger] out.draft.edges[j],
        ) by {
            assert(is_link(b.nodes, b.edges[j]));
        }
        assert forall|p: int| 0 <= p < out.draft.nodes.len() implies 0 <= (
        #[trigger] out.draft.nodes[p]).rail <= out.draft.next_rail by {
            assert(0 <= b.nodes[p].rail);
        }
    }
}

proof fn lemma_rail_walk(st: RailDraft, t: TurnSpanTree, rail: int, node: SpanNode)
    requires
        rail_ready(st, t, rail),
    ensures
        rail_ready(flow_graph::rail_walk(st, t, rail, node), t, rail),
        same_books(st.draft, flow_graph::rail_walk(st, t, rail, node).draft),
    decreases node,
{
    let a = flow_graph::rail_step(st, t, rail, node);
    lemma_rail_step(st, t, rail, node);
    lemma_rail_kids(a, t, rail, node.children@);
    lemma_aside_twice(
        st.draft,
        a.draft,
        flow_graph::rail_kids(a, t, rail, node.children@).draft,
    );
}

proof fn lemma_rail_kids(st: RailDraft, t: TurnSpanTree, rail: int, kids: Seq<SpanNode>)
    requires
        rail_ready(st, t, rail),
    ensures
        rail_ready(flow_graph::rail_kids(st, t, rail, kids), t, rail),
        same_books(st.draft, flow_graph::rail_kids(st, t, rail, kids).draft),
    decreases kids,
{
    if kids.len() > 0 {
        let a = flow_graph::rail_kids(st, t, rail, kids.drop_last());
        lemma_rail_kids(st, t, rail, kids.drop_last());
        lemma_rail_walk(a, t, rail, kids.last());
        lemma_aside_twice(
            st.draft,
            a.draft,
            flow_graph::rail_walk(a, t, rail, kids.last()).draft,
        );
    }
}

proof fn lemma_aside_twice(a: Draft, b: Draft, c: Draft)
    requires
        grows_aside(a, b),
        grows_aside(b, c),
    ensures
        grows_aside(a, c),
{
    assert forall|p: int| 0 <= p < a.nodes.len() implies #[trigger] c.nodes[p] == a.nodes[p] by {
        assert(c.nodes[p] == b.nodes[p]);
    }
    assert forall|p: int| a.nodes.len() <= p < c.nodes.len() implies (
    #[trigger] c.nodes[p]).rail > 0 by {
        if p < b.nodes.len() {
            assert(c.nodes[p] == b.nodes[p]);
        }
    }
}

proof fn lemma_with_rail(d: Draft, t: TurnSpanTree, sub: SpanNode, rail: int, y: int)
    requires
        in_shape(d),
        0 < rail == d.next_rail,
        forall|p: int| 0 <= p < d.nodes.len() ==> (#[trigger] d.nodes[p]).rail < rail,
    ensures
        ({
            let b = flow_graph::with_rail(d, t, sub, rail, y);
            &&& in_shape(b)
            &&& grows_aside(d, b)
            &&& spare(b) == spare(d)
            &&& heads(b.nodes) == heads(d.nodes) + 1
            &&& returned(b.cross) == returned(d.cross) + 1
            &&& dispatches(b.cross) == dispatches(d.cross)
            &&& b.unattached == d.unattached
            &&& b.next_rail == d.next_rail
        }),
{
    let agent = flow_graph::agent_key(sub, rail);
    let head = flow_graph::rail_head(t, agent);
    let node = NodeView {
        tokens: flow_graph::span_tokens(sub),
        ..flow_graph::node_of(
            t,
            sub,
            FlowNodeKind::Subagent,
            head,
            flow_graph::rail_label(sub),
            rail,
            y,
        )
    };
    lemma_head(d, node);
    let a = d.node(node);
    assert(ends_with(a, rail, t, head, y, d.nodes.len() as int));
    let st = RailDraft { draft: a, prev: head, y };
    lemma_rail_kids(st, t, rail, sub.children@);
    let end = flow_graph::rail_kids(st, t, rail, sub.children@);
    assert(grows_aside(d, a)) by {
        assert(a.nodes[d.nodes.len() as int] == node);
    }
    lemma_aside_twice(d, a, end.draft);
    let b = end.draft.crossing(end.prev, TargetView::Return(end.draft.nodes.len()));
    lemma_cross_counts(
        end.draft.cross,
        CrossView { from: end.prev, to: TargetView::Return(end.draft.nodes.len()) },
    );
    lemma_same_shape(end.draft, b);
}

proof fn lemma_same_shape(a: Draft, b: Draft)
    requires
        in_shape(a),
        a.nodes == b.nodes,
        a.edges == b.edges,
        a.next_rail <= b.next_rail,
    ensures
        in_shape(b),
        spare(a) == spare(b),
{
    assert forall|p: int| 0 <= p < b.nodes.len() implies 0 <= (#[trigger] b.nodes[p]).rail
        <= b.next_rail by {
        assert(0 <= a.nodes[p].rail);
    }
    assert forall|j: int| 0 <= j < b.edges.len() implies is_link(
        b.nodes,
        #[trigger] b.edges[j],
    ) by {
        assert(is_link(a.nodes, a.edges[j]));
    }
}

proof fn lemma_dispatches(d: Draft, t: TurnSpanTree, from: Seq<char>, y: int, kids: Seq<SpanNode>)
    requires
        in_shape(d),
    ensures
        ({
            let b = flow_graph::with_dispatches(d, t, from, y, kids);
            &&& in_shape(b)
            &&& grows_aside(d, b)
            &&& spare(b) == spare(d)
            &&& heads(b.nodes) - heads(d.nodes) == returned(b.cross) - returned(d.cross)
            &&& dispatches(b.cross) == dispatches(d.cross) + subagents(kids)
            &&& b.unattached == d.unattached
        }),
    decreases kids.len(),
{
    reveal(Seq::filter);
    if kids.len() > 0 {
        lemma_dispatches(d, t, from, y, kids.drop_last());
        let before = flow_graph::with_dispatches(d, t, from, y, kids.drop_last());
        let sub = kids.last();
        if sub.kind == SpanKind::Subagent {
            let rail = before.next_rail + 1;
            let a = Draft { next_rail: rail, ..before };
            lemma_same_shape(before, a);
            assert forall|p: int| 0 <= p < a.nodes.len() implies (
            #[trigger] a.nodes[p]).rail < rail by {
                assert(before.nodes[p].rail <= before.next_rail);
            }
            let y2 = y + flow_graph::RAIL_GAP;
            lemma_with_rail(a, t, sub, rail, y2);
            let b = flow_graph::with_rail(a, t, sub, rail, y2);
            let to = TargetView::Node(
                flow_graph::rail_head(t, flow_graph::agent_key(sub, rail)),
            );
            lemma_cross_counts(b.cross, CrossView { from, to });
            lemma_same_shape(b, b.crossing(from, to));
            assert(grows_aside(before, a));
            lemma_aside_twice(d, before, a);
            lemma_aside_twice(d, a, b);
        }
    }
}

spec fn books(d: Draft) -> int {
    heads(d.nodes) - returned(d.cross)
}

proof fn lemma_tool_steps(st: ToolDraft, t: TurnSpanTree, kids: Seq<SpanNode>)
    requires
        in_shape(st.draft),
        tail(st.draft, 0, t, st.prev, st.y),
    ensures
        ({
            let b = flow_graph::tool_steps(st, t, kids);
            &&& in_shape(b.draft)
            &&& tail(b.draft, 0, t, b.prev, b.y)
            &&& spare(b.draft) == spare(st.draft)
            &&& books(b.draft) == books(st.draft)
            &&& dispatches(b.draft.cross) == dispatches(st.draft.cross) + dispatched_by(kids)
        }),
    decreases kids.len(),
{
    if kids.len() > 0 {
        lemma_tool_steps(st, t, kids.drop_last());
        let a = flow_graph::tool_steps(st, t, kids.drop_last());
        let tool = kids.last();
        if flow_graph::is_tool(tool) {
            let y = a.y + flow_graph::RAIL_GAP;
            let id = flow_graph::tool_id(t, tool, a.draft.nodes.len());
            let node = flow_graph::node_of(
                t,
                tool,
                flow_graph::tool_kind(tool),
                id,
                tool.name@,
                0,
                y,
            );
            lemma_joined(a.draft, node, t, a.prev, a.y);
            let d = a.draft.node(node).edge(a.prev, id, FlowEdgeKind::Default);
            lemma_dispatches(d, t, id, y, tool.children@);
            lemma_tail_stays(
                d,
                flow_graph::with_dispatches(d, t, id, y, tool.children@),
                t,
                id,
                y,
            );
        }
    }
}

spec fn has_inference(kids: Seq<SpanNode>) -> bool {
    exists|c: int| 0 <= c < kids.len() && (#[trigger] kids[c]).kind == SpanKind::Inference
}

proof fn lemma_turn_steps(st: TurnDraft, t: TurnSpanTree, kids: Seq<SpanNode>)
    requires
        in_shape(st.draft),
        st.prev is None,
    ensures
        ({
            let b = flow_graph::turn_steps(st, t, kids);
            &&& in_shape(b.draft)
            &&& b.prev is Some == has_inference(kids)
            &&& b.prev is Some ==> tail(b.draft, 0, t, b.prev->Some_0, b.y - 32)
            &&& b.prev is None ==> b.y == st.y
            &&& spare(b.draft) == spare(st.draft) + (if has_inference(kids) {
                1int
            } else {
                0int
            })
            &&& books(b.draft) == books(st.draft)
            &&& dispatches(b.draft.cross) == dispatches(st.draft.cross) + dispatched_in(kids)
        }),
    decreases kids.len(),
{
    if kids.len() > 0 {
        let d = kids.drop_last();
        lemma_turn_steps(st, t, d);
        let a = flow_graph::turn_steps(st, t, d);
        let child = kids.last();
        let b = flow_graph::turn_steps(st, t, kids);
        assert(has_inference(kids) == (has_inference(d) || child.kind == SpanKind::Inference)) by {
            if has_inference(kids) {
                let c = choose|c: int|
                    0 <= c < kids.len() && (#[trigger] kids[c]).kind == SpanKind::Inference;
                if c < d.len() {
                    assert(d[c] == kids[c]);
                }
            }
            if has_inference(d) {
                let c = choose|c: int|
                    0 <= c < d.len() && (#[trigger] d[c]).kind == SpanKind::Inference;
                assert(kids[c] == d[c]);
            }
            assert(kids[kids.len() - 1] == child);
        }
        if child.kind == SpanKind::Inference {
            let id = flow_graph::inference_id(t, a.index);
            let n = NodeView {
                model: flow_graph::inference_model(child),
                tokens: flow_graph::span_tokens(child),
                ..flow_graph::node_of(
                    t,
                    child,
                    FlowNodeKind::Inference,
                    id,
                    flow_graph::inference_label(child),
                    0,
                    a.y,
                )
            };
            let with = flow_graph::with_inference(a, t, child);
            if a.prev is Some {
                lemma_joined(a.draft, n, t, a.prev->Some_0, a.y - 32);
                assert(with == a.draft.node(n).edge(a.prev->Some_0, id, FlowEdgeKind::Default));
            } else {
                lemma_head(a.draft, n);
                assert(with == a.draft.node(n));
                assert(ends_with(with, 0, t, id, a.y, a.draft.nodes.len() as int));
            }
            lemma_tool_steps(ToolDraft { draft: with, prev: id, y: a.y }, t, child.children@);
        } else if child.kind == SpanKind::Subagent {
            let rail = a.draft.next_rail + 1;
            let r = Draft { next_rail: rail, ..a.draft };
            lemma_same_shape(a.draft, r);
            assert forall|p: int| 0 <= p < r.nodes.len() implies (
            #[trigger] r.nodes[p]).rail < rail by {
                assert(a.draft.nodes[p].rail <= a.draft.next_rail);
            }
            let y = a.y + flow_graph::RAIL_GAP;
            lemma_with_rail(r, t, child, rail, y);
            let w = flow_graph::with_rail(r, t, child, rail, y);
            lemma_same_shape(w, b.draft);
            if a.prev is Some {
                assert(grows_aside(a.draft, b.draft)) by {
                    assert(grows_aside(r, w));
                    assert forall|p: int| 0 <= p < a.draft.nodes.len() implies #[trigger] b.draft.nodes[p]
                        == a.draft.nodes[p] by {
                        assert(w.nodes[p] == r.nodes[p]);
                    }
                    assert forall|p: int|
                        a.draft.nodes.len() <= p < b.draft.nodes.len() implies (
                    #[trigger] b.draft.nodes[p]).rail > 0 by {
                        assert(w.nodes[p].rail > 0);
                    }
                }
                lemma_tail_stays(a.draft, b.draft, t, a.prev->Some_0, a.y - 32);
            }
        }
    }
}

proof fn lemma_drafted(trees: Seq<TurnSpanTree>)
    ensures
        in_shape(flow_graph::drafted(trees)),
        spare(flow_graph::drafted(trees)) == trees.filter(|t: TurnSpanTree| infers(t)).len(),
        books(flow_graph::drafted(trees)) == 0,
        dispatches(flow_graph::drafted(trees).cross) == trees.fold_left(
            0int,
            |n: int, t: TurnSpanTree| n + dispatched_in(t.root.children@),
        ),
    decreases trees.len(),
{
    reveal(Seq::filter);
    if trees.len() > 0 {
        let d = trees.drop_last();
        lemma_drafted(d);
        let t = trees.last();
        let start = flow_graph::turn_start(flow_graph::drafted(d), t);
        lemma_same_shape(flow_graph::drafted(d), start.draft);
        lemma_turn_steps(start, t, t.root.children@);
        let end = flow_graph::turn_steps(start, t, t.root.children@);
        lemma_same_shape(end.draft, flow_graph::with_turn(flow_graph::drafted(d), t));
        assert(infers(t) == has_inference(t.root.children@));
    }
}

/// Every edge within a rail joins a node with the next one there, in the same
/// turn: as a plain edge on the main rail, and as one of a subagent elsewhere.
pub proof fn lemma_edges_follow_rails(trees: Seq<TurnSpanTree>, j: int) -> (r: (int, int))
    requires
        0 <= j < flow_graph::drafted(trees).edges.len(),
    ensures
        joins(flow_graph::drafted(trees).nodes, flow_graph::drafted(trees).edges[j], r.0, r.1),
{
    lemma_drafted(trees);
    let d = flow_graph::drafted(trees);
    assert(is_link(d.nodes, d.edges[j]));
    let (p, q) = choose|p: int, q: int| #[trigger] joins(d.nodes, d.edges[j], p, q);
    (p, q)
}

/// There is such an edge for each node but the heads of subagents, and but the
/// first inference of each turn.
pub proof fn lemma_edges_are_all(trees: Seq<TurnSpanTree>)
    ensures
        flow_graph::drafted(trees).edges.len() + trees.filter(|t: TurnSpanTree| infers(t)).len()
            == plain(flow_graph::drafted(trees).nodes),
{
    lemma_drafted(trees);
}

/// Every subagent leads back to the main rail, and every one that a tool
/// dispatches is joined to it.
pub proof fn lemma_rails_are_joined(trees: Seq<TurnSpanTree>)
    ensures
        returned(flow_graph::drafted(trees).cross) == heads(flow_graph::drafted(trees).nodes),
        dispatches(flow_graph::drafted(trees).cross) == trees.fold_left(
            0int,
            |n: int, t: TurnSpanTree| n + dispatched_in(t.root.children@),
        ),
{
    lemma_drafted(trees);
}

/// No more turns are shown than are asked for: fifty where nothing is, and all
/// where none is to be left out.
pub proof fn lemma_turns_shown(n: nat, opts: FlowOpts)
    ensures
        opts.max_turns is None ==> flow_graph::shown(n, opts) == if n < 50 {
            n
        } else {
            50
        },
        opts.max_turns == Some(0u32) ==> flow_graph::shown(n, opts) == n,
        opts.max_turns is Some && opts.max_turns->Some_0 > 0 ==> flow_graph::shown(n, opts)
            == if n < opts.max_turns->Some_0 {
            n
        } else {
            opts.max_turns->Some_0 as nat
        },
{
}

} // verus!
