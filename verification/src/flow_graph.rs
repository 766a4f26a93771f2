//! The flow of one session as a laid-out graph.
//!
//! Turns are columns, rails are rows: the main rail is rail 0, and every
//! dispatched subagent gets a rail of its own. Node ids are derived from the
//! spans:
//!
//! - `{turn_id}:inf-{index}` for an inference,
//! - `{turn_id}:tu-{tool_use_id}` for a tool use or a skill,
//! - `{turn_id}:sa-{agent_id}` for the head of a subagent rail.
//!
//! The form of an id does not depend on the rail that the node is on. The index
//! of an inference counts those of the main rail of its turn first, and then
//! those of its subagent rails.

use crate::span_tree;
use crate::span_tree::{SpanKind, SpanNode, SpanStatus, TurnSpanTree};
use crate::text;
use vstd::prelude::*;

verus! {

/// Distance between two turns.
pub const INTER_TURN_GAP: i32 = 96;

/// Distance between two rows.
pub const RAIL_GAP: i32 = 32;

/// Number of turns that are shown where no other number is asked for.
pub const DEFAULT_MAX_TURNS: u32 = 50;

/// What a node stands for.
#[derive(Debug, Clone, Copy, PartialEq, Eq, Structural, Hash)]
pub enum FlowNodeKind {
    Inference,
    ToolUse,
    Subagent,
    Skill,
}

impl FlowNodeKind {
    /// The name on the wire.
    pub open spec fn wire(self) -> Seq<char> {
        match self {
            FlowNodeKind::Inference => "inference"@,
            FlowNodeKind::ToolUse => "tool-use"@,
            FlowNodeKind::Subagent => "subagent"@,
            FlowNodeKind::Skill => "skill"@,
        }
    }

    /// The name on the wire.
    pub fn wire_str(&self) -> (r: &'static str)
        ensures
            r@ == self.wire(),
    {
        match self {
            FlowNodeKind::Inference => "inference",
            FlowNodeKind::ToolUse => "tool-use",
            FlowNodeKind::Subagent => "subagent",
            FlowNodeKind::Skill => "skill",
        }
    }
}

/// Token counters of a node.
#[derive(Debug, Clone, Copy, PartialEq, Eq, Structural)]
pub struct TurnTokens {
    pub input: u64,
    pub output: u64,
    pub cache_read: u64,
    pub cache_write: u64,
    pub reasoning: u64,
}

/// `a + b`, or the largest number where that is too large.
pub open spec fn capped_sum(a: u64, b: u64) -> u64 {
    if a + b > u64::MAX {
        u64::MAX
    } else {
        (a + b) as u64
    }
}

impl TurnTokens {
    /// All counters at 0.
    pub open spec fn zero() -> TurnTokens {
        TurnTokens { input: 0, output: 0, cache_read: 0, cache_write: 0, reasoning: 0 }
    }

    /// Counter by counter, capped at the largest number.
    pub open spec fn plus(self, other: TurnTokens) -> TurnTokens {
        TurnTokens {
            input: capped_sum(self.input, other.input),
            output: capped_sum(self.output, other.output),
            cache_read: capped_sum(self.cache_read, other.cache_read),
            cache_write: capped_sum(self.cache_write, other.cache_write),
            reasoning: capped_sum(self.reasoning, other.reasoning),
        }
    }

    /// Adds `other` counter by counter.
    pub fn add(&mut self, other: TurnTokens)
        ensures
            *final(self) == old(self).plus(other),
    {
        self.input = self.input.saturating_add(other.input);
        self.output = self.output.saturating_add(other.output);
        self.cache_read = self.cache_read.saturating_add(other.cache_read);
        self.cache_write = self.cache_write.saturating_add(other.cache_write);
        self.reasoning = self.reasoning.saturating_add(other.reasoning);
    }
}

impl Default for TurnTokens {
    fn default() -> (r: TurnTokens)
        ensures
            r == TurnTokens::zero(),
    {
        TurnTokens { input: 0, output: 0, cache_read: 0, cache_write: 0, reasoning: 0 }
    }
}

/// Adding tokens is commutative and associative, and zero changes nothing.
pub proof fn lemma_tokens_plus(a: TurnTokens, b: TurnTokens, c: TurnTokens)
    ensures
        a.plus(b) == b.plus(a),
        a.plus(b).plus(c) == a.plus(b.plus(c)),
        a.plus(TurnTokens::zero()) == a,
{
}

/// A node of the graph.
#[derive(Debug, Clone, PartialEq)]
pub struct FlowNode {
    pub id: String,
    pub kind: FlowNodeKind,
    pub turn_number: u32,
    /// 0 for the main rail.
    pub rail: u32,
    pub label: String,
    pub model: Option<String>,
    pub tokens: TurnTokens,
    pub duration_ms: i64,
    pub status: SpanStatus,
    pub x: i32,
    pub y: i32,
}

/// What a [`FlowNode`] says.
#[verifier::ext_equal]
pub struct NodeView {
    pub id: Seq<char>,
    pub kind: FlowNodeKind,
    pub turn_number: int,
    pub rail: int,
    pub label: Seq<char>,
    pub model: Option<Seq<char>>,
    pub tokens: TurnTokens,
    pub duration_ms: int,
    pub status: SpanStatus,
    pub x: int,
    pub y: int,
}

impl View for FlowNode {
    type V = NodeView;

    open spec fn view(&self) -> NodeView {
        NodeView {
            id: self.id@,
            kind: self.kind,
            turn_number: self.turn_number as int,
            rail: self.rail as int,
            label: self.label@,
            model: text::opt_view(self.model),
            tokens: self.tokens,
            duration_ms: self.duration_ms as int,
            status: self.status,
            x: self.x as int,
            y: self.y as int,
        }
    }
}

/// What an edge stands for.
#[derive(Debug, Clone, Copy, PartialEq, Eq, Structural, Hash)]
pub enum FlowEdgeKind {
    /// In sequence on the main rail.
    Default,
    /// From the tool use that dispatches a subagent to the head of its rail.
    Dispatch,
    /// From the end of a subagent rail to the next inference of the main rail.
    Return,
    /// In sequence on a subagent rail.
    Subagent,
    /// To the head of a rail that no tool use dispatched.
    Unattached,
}

impl FlowEdgeKind {
    /// The name on the wire.
    pub open spec fn wire(self) -> Seq<char> {
        match self {
            FlowEdgeKind::Default => "default"@,
            FlowEdgeKind::Dispatch => "dispatch"@,
            FlowEdgeKind::Return => "return"@,
            FlowEdgeKind::Subagent => "subagent"@,
            FlowEdgeKind::Unattached => "unattached"@,
        }
    }

    /// The name on the wire.
    pub fn wire_str(&self) -> (r: &'static str)
        ensures
            r@ == self.wire(),
    {
        match self {
            FlowEdgeKind::Default => "default",
            FlowEdgeKind::Dispatch => "dispatch",
            FlowEdgeKind::Return => "return",
            FlowEdgeKind::Subagent => "subagent",
            FlowEdgeKind::Unattached => "unattached",
        }
    }
}

/// An edge of the graph.
#[derive(Debug, Clone, PartialEq)]
pub struct FlowEdge {
    pub from: String,
    pub to: String,
    pub kind: FlowEdgeKind,
}

/// What a [`FlowEdge`] says.
#[verifier::ext_equal]
pub struct EdgeView {
    pub from: Seq<char>,
    pub to: Seq<char>,
    pub kind: FlowEdgeKind,
}

impl View for FlowEdge {
    type V = EdgeView;

    open spec fn view(&self) -> EdgeView {
        EdgeView { from: self.from@, to: self.to@, kind: self.kind }
    }
}

/// The graph of a session.
#[derive(Debug, Clone, PartialEq)]
pub struct FlowGraph {
    pub session_id: String,
    /// Number of turns that are shown.
    pub turn_count: u32,
    /// Number of turns of the session.
    pub total_turn_count: u32,
    pub truncated: bool,
    pub nodes: Vec<FlowNode>,
    /// Edges within a rail, then those between rails, then unattached ones.
    pub edges: Vec<FlowEdge>,
}

/// Options of the graph.
#[derive(Debug, Clone, Copy)]
pub struct FlowOpts {
    /// How many turns are shown at most; `Some(0)` for all.
    pub max_turns: Option<u32>,
}

impl Default for FlowOpts {
    fn default() -> (r: FlowOpts)
        ensures
            r.max_turns is None,
    {
        FlowOpts { max_turns: None }
    }
}

impl FlowOpts {
    /// The cap that is in force.
    pub open spec fn cap(self) -> Option<u32> {
        match self.max_turns {
            Some(n) => if n == 0 {
                None
            } else {
                Some(n)
            },
            None => Some(DEFAULT_MAX_TURNS),
        }
    }

    /// The cap that is in force: none for `Some(0)`, [`DEFAULT_MAX_TURNS`]
    /// where none is given.
    pub fn effective_max_turns(&self) -> (r: Option<u32>)
        ensures
            r == self.cap(),
    {
        match self.max_turns {
            Some(n) => if n == 0 {
                None
            } else {
                Some(n)
            },
            None => Some(DEFAULT_MAX_TURNS),
        }
    }
}

/// Where an edge between rails leads.
enum CrossTarget {
    Node(String),
    /// The first inference of the main rail from this node on.
    Return(usize),
}

struct CrossEdge {
    from: String,
    to: CrossTarget,
}

/// Where an edge between rails leads.
pub enum TargetView {
    Node(Seq<char>),
    /// The first inference of the main rail from this node on.
    Return(nat),
}

/// An edge between rails before its end is known.
#[verifier::ext_equal]
pub struct CrossView {
    pub from: Seq<char>,
    pub to: TargetView,
}

impl CrossEdge {
    spec fn view(&self) -> CrossView {
        CrossView {
            from: self.from@,
            to: match self.to {
                CrossTarget::Node(s) => TargetView::Node(s@),
                CrossTarget::Return(n) => TargetView::Return(n as nat),
            },
        }
    }
}

/// A graph under construction.
struct Builder {
    nodes: Vec<FlowNode>,
    edges: Vec<FlowEdge>,
    cross_rail_edges: Vec<CrossEdge>,
    unattached_edges: Vec<FlowEdge>,
    /// The highest rail that was handed out.
    next_rail: u32,
    /// The last node on the main rail of the latest turn that has one.
    last_main: Option<String>,
    /// The index of the next inference on a subagent rail of the turn.
    next_inner: u64,
}

/// A graph under construction.
#[verifier::ext_equal]
pub struct Draft {
    pub nodes: Seq<NodeView>,
    pub edges: Seq<EdgeView>,
    pub cross: Seq<CrossView>,
    pub unattached: Seq<EdgeView>,
    pub next_rail: int,
    pub last_main: Option<Seq<char>>,
    pub next_inner: int,
}

/// What each node says.
pub open spec fn node_views(s: Seq<FlowNode>) -> Seq<NodeView> {
    s.map_values(|n: FlowNode| n@)
}

/// What each edge says.
pub open spec fn edge_views(s: Seq<FlowEdge>) -> Seq<EdgeView> {
    s.map_values(|e: FlowEdge| e@)
}

impl Builder {
    spec fn view(&self) -> Draft {
        Draft {
            nodes: node_views(self.nodes@),
            edges: edge_views(self.edges@),
            cross: self.cross_rail_edges@.map_values(|e: CrossEdge| e.view()),
            unattached: edge_views(self.unattached_edges@),
            next_rail: self.next_rail as int,
            last_main: text::opt_view(self.last_main),
            next_inner: self.next_inner as int,
        }
    }
}

impl Draft {
    /// Nothing yet.
    pub open spec fn empty() -> Draft {
        Draft {
            nodes: Seq::empty(),
            edges: Seq::empty(),
            cross: Seq::empty(),
            unattached: Seq::empty(),
            next_rail: 0,
            last_main: None,
            next_inner: 0,
        }
    }

    /// With one more node.
    pub open spec fn node(self, n: NodeView) -> Draft {
        Draft { nodes: self.nodes.push(n), ..self }
    }

    /// With one more edge within a rail.
    pub open spec fn edge(self, from: Seq<char>, to: Seq<char>, kind: FlowEdgeKind) -> Draft {
        Draft { edges: self.edges.push(EdgeView { from, to, kind }), ..self }
    }

    /// With one more edge between rails.
    pub open spec fn crossing(self, from: Seq<char>, to: TargetView) -> Draft {
        Draft { cross: self.cross.push(CrossView { from, to }), ..self }
    }
}

/// A token counter of a span: 0 where it is missing or negative.
pub open spec fn counter(node: SpanNode, key: Seq<char>) -> u64 {
    match span_tree::int_attr(node, key) {
        Some(v) => if v >= 0 {
            v as u64
        } else {
            0
        },
        None => 0,
    }
}

/// The token counters of a span.
pub open spec fn span_tokens(node: SpanNode) -> TurnTokens {
    TurnTokens {
        input: counter(node, "tokens.input"@),
        output: counter(node, "tokens.output"@),
        cache_read: counter(node, "tokens.cache_read"@),
        cache_write: counter(node, "tokens.cache_write"@),
        reasoning: counter(node, "tokens.reasoning"@),
    }
}

/// How long a span took: 0 where one of its times is not known.
pub open spec fn duration_of(node: SpanNode) -> int {
    if node.end_ms <= 0 || node.start_ms <= 0 || node.end_ms < node.start_ms {
        0
    } else {
        node.end_ms - node.start_ms
    }
}

/// The column of a turn.
pub open spec fn column(t: TurnSpanTree) -> int {
    t.turn_number * INTER_TURN_GAP
}

/// The node of a span in turn `t`.
pub open spec fn node_of(
    t: TurnSpanTree,
    span: SpanNode,
    kind: FlowNodeKind,
    id: Seq<char>,
    label: Seq<char>,
    rail: int,
    y: int,
) -> NodeView {
    NodeView {
        id,
        kind,
        turn_number: t.turn_number as int,
        rail,
        label,
        model: None,
        tokens: TurnTokens::zero(),
        duration_ms: duration_of(span),
        status: span.status,
        x: column(t),
        y,
    }
}

/// `ToolUse` or `Skill`, as the span is.
pub open spec fn tool_kind(span: SpanNode) -> FlowNodeKind {
    if span.kind == SpanKind::Skill {
        FlowNodeKind::Skill
    } else {
        FlowNodeKind::ToolUse
    }
}

/// Whether the span is a tool use or a skill.
pub open spec fn is_tool(span: SpanNode) -> bool {
    span.kind == SpanKind::ToolUse || span.kind == SpanKind::Skill
}

/// The id of the tool use, or one made from the number of nodes so far.
pub open spec fn tool_key(span: SpanNode, node_count: nat) -> Seq<char> {
    match span_tree::string_attr(span, "tool_use_id"@) {
        Some(s) => s,
        None => "nokey-"@ + text::decimal(node_count),
    }
}

/// The name of the model of an inference; the name of the span where no model
/// is given.
pub open spec fn inference_label(span: SpanNode) -> Seq<char> {
    match span_tree::string_attr(span, "model"@) {
        Some(m) => m,
        None => span.name@,
    }
}

/// The id of an inference.
pub open spec fn inference_id(t: TurnSpanTree, index: int) -> Seq<char> {
    t.turn_id@ + ":inf-"@ + text::decimal(index as nat)
}

/// The id of a tool use or a skill, where there are `node_count` nodes so far.
pub open spec fn tool_id(t: TurnSpanTree, span: SpanNode, node_count: nat) -> Seq<char> {
    t.turn_id@ + ":tu-"@ + tool_key(span, node_count)
}

/// The id of a subagent, or one made from its rail.
pub open spec fn agent_key(sub: SpanNode, rail: int) -> Seq<char> {
    match span_tree::string_attr(sub, "agent_id"@) {
        Some(s) => s,
        None => "rail-"@ + text::decimal(rail as nat),
    }
}

/// The id of the head of a subagent rail.
pub open spec fn rail_head(t: TurnSpanTree, agent: Seq<char>) -> Seq<char> {
    t.turn_id@ + ":sa-"@ + agent
}

/// The label of the head of a subagent rail: the type of the agent, or else the
/// name of the span.
pub open spec fn rail_label(sub: SpanNode) -> Seq<char> {
    match span_tree::string_attr(sub, "agent_type"@) {
        Some(s) => s,
        None => if sub.name@.len() > 0 {
            sub.name@
        } else {
            "subagent"@
        },
    }
}

/// A subagent rail under construction: the node that the next one follows, and
/// the row.
#[verifier::ext_equal]
pub struct RailDraft {
    pub draft: Draft,
    pub prev: Seq<char>,
    pub y: int,
}

/// The rail with the span `inner` added, its spans below not included.
pub open spec fn rail_step(st: RailDraft, t: TurnSpanTree, rail: int, inner: SpanNode) -> RailDraft {
    let y = st.y + RAIL_GAP;
    if inner.kind == SpanKind::Inference {
        let id = inference_id(t, st.draft.next_inner);
        let node = NodeView {
            model: span_tree::string_attr(inner, "model"@),
            tokens: span_tokens(inner),
            ..node_of(t, inner, FlowNodeKind::Inference, id, inference_label(inner), rail, y)
        };
        let d = st.draft.node(node).edge(st.prev, id, FlowEdgeKind::Subagent);
        RailDraft { draft: Draft { next_inner: d.next_inner + 1, ..d }, prev: id, y }
    } else if is_tool(inner) {
        let id = tool_id(t, inner, st.draft.nodes.len());
        let node = node_of(t, inner, tool_kind(inner), id, inner.name@, rail, y);
        RailDraft {
            draft: st.draft.node(node).edge(st.prev, id, FlowEdgeKind::Subagent),
            prev: id,
            y,
        }
    } else {
        st
    }
}

/// The rail with the span and then everything below it added.
pub open spec fn rail_walk(
    st: RailDraft,
    t: TurnSpanTree,
    rail: int,
    node: SpanNode,
) -> RailDraft
    decreases node,
{
    rail_kids(rail_step(st, t, rail, node), t, rail, node.children@)
}

/// The rail with the spans `kids` added one after the other.
pub open spec fn rail_kids(
    st: RailDraft,
    t: TurnSpanTree,
    rail: int,
    kids: Seq<SpanNode>,
) -> RailDraft
    decreases kids,
{
    if kids.len() == 0 {
        st
    } else {
        rail_walk(rail_kids(st, t, rail, kids.drop_last()), t, rail, kids.last())
    }
}

/// The graph with the rail of the subagent `sub` added: its head, everything
/// below it in depth-first order, and an edge back to the main rail.
pub open spec fn with_rail(d: Draft, t: TurnSpanTree, sub: SpanNode, rail: int, y: int) -> Draft {
    let agent = agent_key(sub, rail);
    let head = rail_head(t, agent);
    let node = NodeView {
        tokens: span_tokens(sub),
        ..node_of(t, sub, FlowNodeKind::Subagent, head, rail_label(sub), rail, y)
    };
    let end = rail_kids(
        RailDraft { draft: d.node(node), prev: head, y },
        t,
        rail,
        sub.children@,
    );
    end.draft.crossing(end.prev, TargetView::Return(end.draft.nodes.len()))
}

/// The graph with a fresh rail for each subagent among `kids`, which the tool
/// use `from` on row `y` dispatches.
pub open spec fn with_dispatches(
    d: Draft,
    t: TurnSpanTree,
    from: Seq<char>,
    y: int,
    kids: Seq<SpanNode>,
) -> Draft
    decreases kids.len(),
{
    if kids.len() == 0 {
        d
    } else {
        let before = with_dispatches(d, t, from, y, kids.drop_last());
        let sub = kids.last();
        if sub.kind == SpanKind::Subagent {
            let rail = before.next_rail + 1;
            with_rail(Draft { next_rail: rail, ..before }, t, sub, rail, y + RAIL_GAP).crossing(
                from,
                TargetView::Node(rail_head(t, agent_key(sub, rail))),
            )
        } else {
            before
        }
    }
}

/// The tool uses of an inference under construction.
#[verifier::ext_equal]
pub struct ToolDraft {
    pub draft: Draft,
    pub prev: Seq<char>,
    pub y: int,
}

/// One span below an inference further.
pub open spec fn tool_step(st: ToolDraft, t: TurnSpanTree, tool: SpanNode) -> ToolDraft {
    if is_tool(tool) {
        let y = st.y + RAIL_GAP;
        let id = tool_id(t, tool, st.draft.nodes.len());
        let node = node_of(t, tool, tool_kind(tool), id, tool.name@, 0, y);
        let d = st.draft.node(node).edge(st.prev, id, FlowEdgeKind::Default);
        ToolDraft { draft: with_dispatches(d, t, id, y, tool.children@), prev: id, y }
    } else {
        st
    }
}

/// All spans below an inference.
pub open spec fn tool_steps(st: ToolDraft, t: TurnSpanTree, kids: Seq<SpanNode>) -> ToolDraft
    decreases kids.len(),
{
    if kids.len() == 0 {
        st
    } else {
        tool_step(tool_steps(st, t, kids.drop_last()), t, kids.last())
    }
}

/// A turn under construction: the node that the next one of the main rail
/// follows, the number of inferences, and the row.
#[verifier::ext_equal]
pub struct TurnDraft {
    pub draft: Draft,
    pub prev: Option<Seq<char>>,
    pub index: int,
    pub y: int,
}

/// The model of an inference: the attribute, or else the name of the span.
pub open spec fn inference_model(span: SpanNode) -> Option<Seq<char>> {
    match span_tree::string_attr(span, "model"@) {
        Some(m) => Some(m),
        None => if span.name@.len() > 0 {
            Some(span.name@)
        } else {
            None
        },
    }
}

/// The inference `child` put on the main rail, its tool uses not included.
pub open spec fn with_inference(st: TurnDraft, t: TurnSpanTree, child: SpanNode) -> Draft {
    let id = inference_id(t, st.index);
    let node = NodeView {
        model: inference_model(child),
        tokens: span_tokens(child),
        ..node_of(
            t,
            child,
            FlowNodeKind::Inference,
            id,
            inference_label(child),
            0,
            st.y,
        )
    };
    match st.prev {
        Some(p) => st.draft.node(node).edge(p, id, FlowEdgeKind::Default),
        None => st.draft.node(node),
    }
}

/// One span below the root of the turn further.
pub open spec fn turn_step(st: TurnDraft, t: TurnSpanTree, child: SpanNode) -> TurnDraft {
    if child.kind == SpanKind::Inference {
        let tools = tool_steps(
            ToolDraft {
                draft: with_inference(st, t, child),
                prev: inference_id(t, st.index),
                y: st.y,
            },
            t,
            child.children@,
        );
        TurnDraft {
            draft: tools.draft,
            prev: Some(tools.prev),
            index: st.index + 1,
            y: tools.y + RAIL_GAP,
        }
    } else if child.kind == SpanKind::Subagent {
        let rail = st.draft.next_rail + 1;
        let d = with_rail(
            Draft { next_rail: rail, ..st.draft },
            t,
            child,
            rail,
            st.y + RAIL_GAP,
        );
        let anchor = match st.prev {
            Some(p) => Some(p),
            None => d.last_main,
        };
        TurnDraft {
            draft: match anchor {
                Some(from) => Draft {
                    unattached: d.unattached.push(
                        EdgeView {
                            from,
                            to: rail_head(t, agent_key(child, rail)),
                            kind: FlowEdgeKind::Unattached,
                        },
                    ),
                    ..d
                },
                None => d,
            },
            ..st
        }
    } else {
        st
    }
}

/// All spans below the root of the turn.
pub open spec fn turn_steps(st: TurnDraft, t: TurnSpanTree, kids: Seq<SpanNode>) -> TurnDraft
    decreases kids.len(),
{
    if kids.len() == 0 {
        st
    } else {
        turn_step(turn_steps(st, t, kids.drop_last()), t, kids.last())
    }
}

/// Number of inferences among the spans.
pub open spec fn inferences(kids: Seq<SpanNode>) -> nat
    decreases kids.len(),
{
    if kids.len() == 0 {
        0
    } else {
        inferences(kids.drop_last()) + if kids.last().kind == SpanKind::Inference {
            1nat
        } else {
            0nat
        }
    }
}

/// The turn `t` with nothing in it yet.
pub open spec fn turn_start(d: Draft, t: TurnSpanTree) -> TurnDraft {
    TurnDraft {
        draft: Draft { next_inner: inferences(t.root.children@) as int, ..d },
        prev: None,
        index: 0,
        y: 0,
    }
}

/// The graph with the turn `t` added.
pub open spec fn with_turn(d: Draft, t: TurnSpanTree) -> Draft {
    let end = turn_steps(turn_start(d, t), t, t.root.children@);
    match end.prev {
        Some(p) => Draft { last_main: Some(p), ..end.draft },
        None => end.draft,
    }
}

/// The graph of the turns, its returns still open.
pub open spec fn drafted(trees: Seq<TurnSpanTree>) -> Draft
    decreases trees.len(),
{
    if trees.len() == 0 {
        Draft::empty()
    } else {
        with_turn(drafted(trees.drop_last()), trees.last())
    }
}

/// Whether the node is an inference of the main rail.
pub open spec fn is_main(n: NodeView) -> bool {
    n.rail == 0 && n.kind == FlowNodeKind::Inference
}

/// The first inference of the main rail from node `from` on.
pub open spec fn next_main(nodes: Seq<NodeView>, from: nat) -> Option<Seq<char>>
    decreases nodes.len(),
{
    if nodes.len() <= from {
        None
    } else {
        match next_main(nodes.drop_last(), from) {
            Some(id) => Some(id),
            None => if is_main(nodes.last()) {
                Some(nodes.last().id)
            } else {
                None
            },
        }
    }
}

/// The edges between rails with their ends; a return that no later inference
/// takes up is left out.
pub open spec fn resolved(nodes: Seq<NodeView>, cross: Seq<CrossView>) -> Seq<EdgeView>
    decreases cross.len(),
{
    if cross.len() == 0 {
        Seq::empty()
    } else {
        let rest = resolved(nodes, cross.drop_last());
        let e = cross.last();
        match e.to {
            TargetView::Node(to) => rest.push(
                EdgeView { from: e.from, to, kind: FlowEdgeKind::Dispatch },
            ),
            TargetView::Return(from) => match next_main(nodes, from) {
                Some(to) => rest.push(EdgeView { from: e.from, to, kind: FlowEdgeKind::Return }),
                None => rest,
            },
        }
    }
}

/// How many of `n` turns are shown.
pub open spec fn shown(n: nat, opts: FlowOpts) -> nat {
    match opts.cap() {
        Some(cap) => if cap < n {
            cap as nat
        } else {
            n
        },
        None => n,
    }
}

/// `n`, or the largest `u32` where that is smaller.
pub open spec fn clamp_u32(n: nat) -> int {
    if n > u32::MAX {
        u32::MAX as int
    } else {
        n as int
    }
}

/// Whether the layout of the turns fits the numbers that it is written in.
pub open spec fn layout_fits(trees: Seq<TurnSpanTree>) -> bool {
    &&& span_tree::total_spans(trees) <= u32::MAX
    &&& forall|i: int|
        0 <= i < trees.len() ==> column(#[trigger] trees[i]) <= i32::MAX && RAIL_GAP
            * span_tree::span_count(trees[i].root) <= i32::MAX
}

fn count_shown(n: usize, opts: FlowOpts) -> (r: usize)
    ensures
        r == shown(n as nat, opts),
        r <= n,
{
    match opts.effective_max_turns() {
        Some(cap) => if (cap as usize) < n {
            cap as usize
        } else {
            n
        },
        None => n,
    }
}

/// Whether the layout of the turns that are shown fits the numbers that it is
/// written in.
pub fn check_layout_fits(trees: &[TurnSpanTree], opts: FlowOpts) -> (r: bool)
    ensures
        r == layout_fits(trees@.take(shown(trees@.len(), opts) as int)),
{
    let take: usize = count_shown(trees.len(), opts);
    let ghost all = trees@.take(take as int);
    let mut n: u64 = 0;
    let mut i: usize = 0;
    assert(all.take(0) =~= Seq::<TurnSpanTree>::empty());
    while i < take
        invariant
            i <= take <= trees@.len(),
            take == shown(trees@.len(), opts),
            all == trees@.take(take as int),
            n == span_tree::total_spans(all.take(i as int)),
            n <= u32::MAX,
            forall|k: int|
                0 <= k < i ==> column(#[trigger] all[k]) <= i32::MAX && RAIL_GAP
                    * span_tree::span_count(all[k].root) <= i32::MAX,
        decreases take - i,
    {
        let t = &trees[i];
        assert(all[i as int] == *t);
        proof {
            assert(all.take(i + 1).drop_last() =~= all.take(i as int));
            assert(all.take(i + 1).last() == all[i as int]);
            span_tree::lemma_total_spans(all, i + 1);
        }
        if t.turn_number as i128 * INTER_TURN_GAP as i128 > i32::MAX as i128 {
            return false;
        }
        match span_tree::count_spans(&t.root, u32::MAX as u64 - n) {
            Some(m) => {
                if m as i128 * RAIL_GAP as i128 > i32::MAX as i128 {
                    return false;
                }
                n = n + m;
            },
            None => {
                return false;
            },
        }
        i = i + 1;
    }
    assert(all.take(i as int) =~= all);
    true
}

/// How far a rail can grow.
proof fn lemma_rail_bounds(
    st: RailDraft,
    t: TurnSpanTree,
    rail: int,
    node: SpanNode,
)
    ensures
        rail_walk(st, t, rail, node).y <= st.y + RAIL_GAP * span_tree::span_count(node),
        rail_walk(st, t, rail, node).draft.next_inner <= st.draft.next_inner
            + span_tree::span_count(node),
        rail_walk(st, t, rail, node).draft.next_rail == st.draft.next_rail,
        rail_walk(st, t, rail, node).draft.last_main == st.draft.last_main,
    decreases node,
{
    lemma_rail_kids_bounds(
        rail_step(st, t, rail, node),
        t,
        rail,
        node.children@,
    );
}

proof fn lemma_rail_kids_bounds(
    st: RailDraft,
    t: TurnSpanTree,
    rail: int,
    kids: Seq<SpanNode>,
)
    ensures
        rail_kids(st, t, rail, kids).y <= st.y + RAIL_GAP * span_tree::span_counts(kids),
        rail_kids(st, t, rail, kids).draft.next_inner <= st.draft.next_inner
            + span_tree::span_counts(kids),
        rail_kids(st, t, rail, kids).draft.next_rail == st.draft.next_rail,
        rail_kids(st, t, rail, kids).draft.last_main == st.draft.last_main,
    decreases kids,
{
    if kids.len() > 0 {
        lemma_rail_kids_bounds(st, t, rail, kids.drop_last());
        lemma_rail_bounds(
            rail_kids(st, t, rail, kids.drop_last()),
            t,
            rail,
            kids.last(),
        );
    }
}

proof fn lemma_dispatch_bounds(
    d: Draft,
    t: TurnSpanTree,
    from: Seq<char>,
    y: int,
    kids: Seq<SpanNode>,
)
    ensures
        with_dispatches(d, t, from, y, kids).next_rail <= d.next_rail + span_tree::span_counts(
            kids,
        ),
        with_dispatches(d, t, from, y, kids).last_main == d.last_main,
        with_dispatches(d, t, from, y, kids).next_inner <= d.next_inner + span_tree::span_counts(
            kids,
        ),
    decreases kids.len(),
{
    if kids.len() > 0 {
        let before = with_dispatches(d, t, from, y, kids.drop_last());
        span_tree::lemma_span_counts_last(kids);
        lemma_dispatch_bounds(d, t, from, y, kids.drop_last());
        let sub = kids.last();
        if sub.kind == SpanKind::Subagent {
            lemma_with_rail_bounds(
                Draft { next_rail: before.next_rail + 1, ..before },
                t,
                sub,
                before.next_rail + 1,
                y + RAIL_GAP,
            );
        }
    }
}

proof fn lemma_with_rail_bounds(d: Draft, t: TurnSpanTree, sub: SpanNode, rail: int, y: int)
    ensures
        with_rail(d, t, sub, rail, y).next_rail == d.next_rail,
        with_rail(d, t, sub, rail, y).last_main == d.last_main,
        with_rail(d, t, sub, rail, y).next_inner <= d.next_inner + span_tree::span_count(sub),
{
    let agent = agent_key(sub, rail);
    let head = rail_head(t, agent);
    let node = NodeView {
        tokens: span_tokens(sub),
        ..node_of(t, sub, FlowNodeKind::Subagent, head, rail_label(sub), rail, y)
    };
    lemma_rail_kids_bounds(
        RailDraft { draft: d.node(node), prev: head, y },
        t,
        rail,
        sub.children@,
    );
}

proof fn lemma_tool_bounds(st: ToolDraft, t: TurnSpanTree, kids: Seq<SpanNode>)
    ensures
        tool_steps(st, t, kids).y <= st.y + RAIL_GAP * span_tree::span_counts(kids),
        tool_steps(st, t, kids).draft.next_rail <= st.draft.next_rail + span_tree::span_counts(
            kids,
        ),
        tool_steps(st, t, kids).draft.last_main == st.draft.last_main,
        tool_steps(st, t, kids).draft.next_inner <= st.draft.next_inner + span_tree::span_counts(
            kids,
        ),
    decreases kids.len(),
{
    if kids.len() > 0 {
        let before = tool_steps(st, t, kids.drop_last());
        let tool = kids.last();
        span_tree::lemma_span_counts_last(kids);
        lemma_tool_bounds(st, t, kids.drop_last());
        if is_tool(tool) {
            let y = before.y + RAIL_GAP;
            let id = tool_id(t, tool, before.draft.nodes.len());
            let node = node_of(t, tool, tool_kind(tool), id, tool.name@, 0, y);
            let d = before.draft.node(node).edge(before.prev, id, FlowEdgeKind::Default);
            lemma_dispatch_bounds(d, t, id, y, tool.children@);
        }
    }
}

proof fn lemma_turn_bounds(st: TurnDraft, t: TurnSpanTree, kids: Seq<SpanNode>)
    ensures
        turn_steps(st, t, kids).y <= st.y + RAIL_GAP * span_tree::span_counts(kids),
        turn_steps(st, t, kids).index <= st.index + span_tree::span_counts(kids),
        turn_steps(st, t, kids).draft.next_rail <= st.draft.next_rail + span_tree::span_counts(
            kids,
        ),
        turn_steps(st, t, kids).draft.last_main == st.draft.last_main,
        turn_steps(st, t, kids).draft.next_inner <= st.draft.next_inner + span_tree::span_counts(
            kids,
        ),
    decreases kids.len(),
{
    if kids.len() > 0 {
        let before = turn_steps(st, t, kids.drop_last());
        let child = kids.last();
        span_tree::lemma_span_counts_last(kids);
        lemma_turn_bounds(st, t, kids.drop_last());
        if child.kind == SpanKind::Inference {
            lemma_tool_bounds(
                ToolDraft {
                    draft: with_inference(before, t, child),
                    prev: inference_id(t, before.index),
                    y: before.y,
                },
                t,
                child.children@,
            );
        } else if child.kind == SpanKind::Subagent {
            let rail = before.draft.next_rail + 1;
            lemma_with_rail_bounds(
                Draft { next_rail: rail, ..before.draft },
                t,
                child,
                rail,
                before.y + RAIL_GAP,
            );
        }
    }
}

/// Where a subagent rail stands.
struct Rail {
    prev: String,
    y: i32,
}

spec fn rail_draft(b: Builder, c: Rail) -> RailDraft {
    RailDraft { draft: b.view(), prev: c.prev@, y: c.y as int }
}

fn attr_counter(node: &SpanNode, key: &str) -> (r: u64)
    ensures
        r == counter(*node, key@),
{
    match node.attr_int(key) {
        Some(v) => if v >= 0 {
            v as u64
        } else {
            0
        },
        None => 0,
    }
}

fn tokens_from_attrs(node: &SpanNode) -> (r: TurnTokens)
    ensures
        r == span_tokens(*node),
{
    TurnTokens {
        input: attr_counter(node, "tokens.input"),
        output: attr_counter(node, "tokens.output"),
        cache_read: attr_counter(node, "tokens.cache_read"),
        cache_write: attr_counter(node, "tokens.cache_write"),
        reasoning: attr_counter(node, "tokens.reasoning"),
    }
}

fn span_duration(node: &SpanNode) -> (r: i64)
    ensures
        r == duration_of(*node),
{
    if node.end_ms <= 0 || node.start_ms <= 0 || node.end_ms < node.start_ms {
        0
    } else {
        node.end_ms - node.start_ms
    }
}

fn make_node(
    t: &TurnSpanTree,
    span: &SpanNode,
    kind: FlowNodeKind,
    id: String,
    label: String,
    rail: u32,
    y: i32,
) -> (r: FlowNode)
    requires
        column(*t) <= i32::MAX,
    ensures
        r@ == node_of(*t, *span, kind, id@, label@, rail as int, y as int),
{
    FlowNode {
        id,
        kind,
        turn_number: t.turn_number,
        rail,
        label,
        model: None,
        tokens: TurnTokens::default(),
        duration_ms: span_duration(span),
        status: span.status,
        x: (t.turn_number as i32) * INTER_TURN_GAP,
        y,
    }
}

fn make_tool_key(span: &SpanNode, node_count: usize) -> (r: String)
    ensures
        r@ == tool_key(*span, node_count as nat),
{
    match span.attr_string("tool_use_id") {
        Some(s) => s,
        None => text::join2("nokey-", text::decimal_string(node_count as u64).as_str()),
    }
}

fn make_inference_label(span: &SpanNode) -> (r: String)
    ensures
        r@ == inference_label(*span),
{
    match span.attr_string("model") {
        Some(m) => m,
        None => span.name.clone(),
    }
}

fn make_inference_id(t: &TurnSpanTree, index: u64) -> (r: String)
    ensures
        r@ == inference_id(*t, index as int),
{
    text::join3(t.turn_id.as_str(), ":inf-", text::decimal_string(index).as_str())
}

fn make_tool_id(t: &TurnSpanTree, span: &SpanNode, node_count: usize) -> (r: String)
    ensures
        r@ == tool_id(*t, *span, node_count as nat),
{
    let key = make_tool_key(span, node_count);
    text::join3(t.turn_id.as_str(), ":tu-", key.as_str())
}

fn count_inferences(kids: &Vec<SpanNode>) -> (r: u64)
    ensures
        r == inferences(kids@),
{
    let mut n: u64 = 0;
    let mut i: usize = 0;
    assert(kids@.take(0) =~= Seq::<SpanNode>::empty());
    while i < kids.len()
        invariant
            i <= kids@.len(),
            n <= i,
            n == inferences(kids@.take(i as int)),
        decreases kids@.len() - i,
    {
        assert(kids@.take(i + 1).drop_last() =~= kids@.take(i as int));
        if kids[i].kind == SpanKind::Inference {
            n = n + 1;
        }
        i = i + 1;
    }
    assert(kids@.take(i as int) =~= kids@);
    n
}

proof fn lemma_inferences(kids: Seq<SpanNode>)
    ensures
        inferences(kids) <= span_tree::span_counts(kids),
    decreases kids.len(),
{
    if kids.len() > 0 {
        span_tree::lemma_span_counts_last(kids);
        lemma_inferences(kids.drop_last());
    }
}

fn kind_of_tool(span: &SpanNode) -> (r: FlowNodeKind)
    ensures
        r == tool_kind(*span),
{
    if span.kind == SpanKind::Skill {
        FlowNodeKind::Skill
    } else {
        FlowNodeKind::ToolUse
    }
}

impl Builder {
    fn push_node(&mut self, n: FlowNode)
        ensures
            final(self).view() == old(self).view().node(n@),
    {
        let ghost before = node_views(self.nodes@);
        self.nodes.push(n);
        assert(node_views(self.nodes@) =~= before.push(n@));
    }

    fn push_edge(&mut self, from: &str, to: &str, kind: FlowEdgeKind)
        ensures
            final(self).view() == old(self).view().edge(from@, to@, kind),
    {
        let ghost before = edge_views(self.edges@);
        self.edges.push(FlowEdge { from: from.to_owned(), to: to.to_owned(), kind });
        assert(edge_views(self.edges@) =~= before.push(EdgeView { from: from@, to: to@, kind }));
    }

    fn push_cross(&mut self, from: &str, to: CrossTarget)
        ensures
            final(self).view() == old(self).view().crossing(
                from@,
                match to {
                    CrossTarget::Node(s) => TargetView::Node(s@),
                    CrossTarget::Return(n) => TargetView::Return(n as nat),
                },
            ),
    {
        let ghost before = self.cross_rail_edges@.map_values(|e: CrossEdge| e.view());
        let e = CrossEdge { from: from.to_owned(), to };
        let ghost v = e.view();
        self.cross_rail_edges.push(e);
        assert(self.cross_rail_edges@.map_values(|e: CrossEdge| e.view()) =~= before.push(v));
    }

    fn push_unattached(&mut self, from: &str, to: &str)
        ensures
            final(self).view() == (Draft {
                unattached: old(self).view().unattached.push(
                    EdgeView { from: from@, to: to@, kind: FlowEdgeKind::Unattached },
                ),
                ..old(self).view()
            }),
    {
        let ghost before = edge_views(self.unattached_edges@);
        self.unattached_edges.push(
            FlowEdge { from: from.to_owned(), to: to.to_owned(), kind: FlowEdgeKind::Unattached },
        );
        assert(edge_views(self.unattached_edges@) =~= before.push(
            EdgeView { from: from@, to: to@, kind: FlowEdgeKind::Unattached },
        ));
    }

    fn step_rail(
        &mut self,
        cur: &mut Rail,
        t: &TurnSpanTree,
        rail: u32,
        inner: &SpanNode,
    )
        requires
            column(*t) <= i32::MAX,
            old(cur).y + RAIL_GAP <= i32::MAX,
            old(self).next_inner < u64::MAX,
        ensures
            rail_draft(*final(self), *final(cur)) == rail_step(
                rail_draft(*old(self), *old(cur)),
                *t,
                rail as int,
                *inner,
            ),
    {
        if inner.kind == SpanKind::Inference {
            cur.y = cur.y + RAIL_GAP;
            let id = make_inference_id(t, self.next_inner);
            let mut n = make_node(
                t,
                inner,
                FlowNodeKind::Inference,
                id.clone(),
                make_inference_label(inner),
                rail,
                cur.y,
            );
            n.model = inner.attr_string("model");
            n.tokens = tokens_from_attrs(inner);
            self.push_node(n);
            self.push_edge(cur.prev.as_str(), id.as_str(), FlowEdgeKind::Subagent);
            cur.prev = id;
            self.next_inner = self.next_inner + 1;
        } else if inner.kind == SpanKind::ToolUse || inner.kind == SpanKind::Skill {
            cur.y = cur.y + RAIL_GAP;
            let id = make_tool_id(t, inner, self.nodes.len());
            let n = make_node(
                t,
                inner,
                kind_of_tool(inner),
                id.clone(),
                inner.name.clone(),
                rail,
                cur.y,
            );
            self.push_node(n);
            self.push_edge(cur.prev.as_str(), id.as_str(), FlowEdgeKind::Subagent);
            cur.prev = id;
        }
    }

    fn walk_rail(
        &mut self,
        cur: &mut Rail,
        t: &TurnSpanTree,
        rail: u32,
        node: &SpanNode,
    )
        requires
            column(*t) <= i32::MAX,
            old(cur).y + RAIL_GAP * span_tree::span_count(*node) <= i32::MAX,
            old(self).next_inner + span_tree::span_count(*node) <= u64::MAX,
        ensures
            rail_draft(*final(self), *final(cur)) == rail_walk(
                rail_draft(*old(self), *old(cur)),
                *t,
                rail as int,
                *node,
            ),
        decreases node,
    {
        self.step_rail(cur, t, rail, node);
        self.walk_rail_kids(cur, t, rail, &node.children);
    }

    fn walk_rail_kids(
        &mut self,
        cur: &mut Rail,
        t: &TurnSpanTree,
        rail: u32,
        kids: &Vec<SpanNode>,
    )
        requires
            column(*t) <= i32::MAX,
            old(cur).y + RAIL_GAP * span_tree::span_counts(kids@) <= i32::MAX,
            old(self).next_inner + span_tree::span_counts(kids@) <= u64::MAX,
        ensures
            rail_draft(*final(self), *final(cur)) == rail_kids(
                rail_draft(*old(self), *old(cur)),
                *t,
                rail as int,
                kids@,
            ),
        decreases kids,
    {
        let ghost st = rail_draft(*self, *cur);
        let mut i: usize = 0;
        assert(kids@.take(0) =~= Seq::<SpanNode>::empty());
        while i < kids.len()
            invariant
                i <= kids@.len(),
                column(*t) <= i32::MAX,
                st.y + RAIL_GAP * span_tree::span_counts(kids@) <= i32::MAX,
                st.draft.next_inner + span_tree::span_counts(kids@) <= u64::MAX,
                rail_draft(*self, *cur) == rail_kids(
                    st,
                    *t,
                    rail as int,
                    kids@.take(i as int),
                ),
            decreases kids@.len() - i,
        {
            proof {
                span_tree::lemma_span_counts_take(kids@, i as int);
                lemma_rail_kids_bounds(st, *t, rail as int, kids@.take(i as int));
                assert(kids@.take(i + 1).drop_last() =~= kids@.take(i as int));
                assert(kids@.take(i + 1).last() == kids@[i as int]);
                assert(decreases_to!(kids => kids@[i as int]));
            }
            self.walk_rail(cur, t, rail, &kids[i]);
            i = i + 1;
        }
        assert(kids@.take(i as int) =~= kids@);
    }

    /// Adds the rail of the subagent `sub`, and returns the id of its head.
    fn emit_subagent_rail(&mut self, t: &TurnSpanTree, sub: &SpanNode, rail: u32, y: i32) -> (r:
        String)
        requires
            column(*t) <= i32::MAX,
            y + RAIL_GAP * (span_tree::span_count(*sub) - 1) <= i32::MAX,
            old(self).next_inner + span_tree::span_count(*sub) <= u64::MAX,
        ensures
            final(self).view() == with_rail(old(self).view(), *t, *sub, rail as int, y as int),
            r@ == rail_head(*t, agent_key(*sub, rail as int)),
    {
        let agent = match sub.attr_string("agent_id") {
            Some(s) => s,
            None => text::join2("rail-", text::decimal_string(rail as u64).as_str()),
        };
        let label = match sub.attr_string("agent_type") {
            Some(s) => s,
            None => if !sub.name.as_str().is_empty() {
                sub.name.clone()
            } else {
                "subagent".to_owned()
            },
        };
        let head = text::join3(t.turn_id.as_str(), ":sa-", agent.as_str());
        let mut n = make_node(t, sub, FlowNodeKind::Subagent, head.clone(), label, rail, y);
        n.tokens = tokens_from_attrs(sub);
        self.push_node(n);
        let mut cur = Rail { prev: head.clone(), y };
        self.walk_rail_kids(&mut cur, t, rail, &sub.children);
        let from: usize = self.nodes.len();
        self.push_cross(cur.prev.as_str(), CrossTarget::Return(from));
        head
    }

    fn add_dispatches(&mut self, t: &TurnSpanTree, from: &str, y: i32, kids: &Vec<SpanNode>)
        requires
            column(*t) <= i32::MAX,
            y + RAIL_GAP * span_tree::span_counts(kids@) <= i32::MAX,
            old(self).next_rail + span_tree::span_counts(kids@) <= u32::MAX,
            old(self).next_inner + span_tree::span_counts(kids@) <= u64::MAX,
        ensures
            final(self).view() == with_dispatches(
                old(self).view(),
                *t,
                from@,
                y as int,
                kids@,
            ),
    {
        let ghost d = self.view();
        let mut i: usize = 0;
        assert(kids@.take(0) =~= Seq::<SpanNode>::empty());
        while i < kids.len()
            invariant
                i <= kids@.len(),
                column(*t) <= i32::MAX,
                y + RAIL_GAP * span_tree::span_counts(kids@) <= i32::MAX,
                d.next_rail + span_tree::span_counts(kids@) <= u32::MAX,
                d.next_inner + span_tree::span_counts(kids@) <= u64::MAX,
                self.view() == with_dispatches(d, *t, from@, y as int, kids@.take(i as int)),
            decreases kids@.len() - i,
        {
            proof {
                span_tree::lemma_span_counts_take(kids@, i as int);
                lemma_dispatch_bounds(d, *t, from@, y as int, kids@.take(i as int));
                assert(kids@.take(i + 1).drop_last() =~= kids@.take(i as int));
                assert(kids@.take(i + 1).last() == kids@[i as int]);
            }
            let sub = &kids[i];
            if sub.kind == SpanKind::Subagent {
                self.next_rail = self.next_rail + 1;
                let rail: u32 = self.next_rail;
                let head = self.emit_subagent_rail(t, sub, rail, y + RAIL_GAP);
                self.push_cross(from, CrossTarget::Node(head));
            }
            i = i + 1;
        }
        assert(kids@.take(i as int) =~= kids@);
    }

    fn add_tool(&mut self, prev: String, y: i32, t: &TurnSpanTree, tool: &SpanNode) -> (r: (
        String,
        i32,
    ))
        requires
            column(*t) <= i32::MAX,
            y + RAIL_GAP * span_tree::span_count(*tool) <= i32::MAX,
            old(self).next_rail + span_tree::span_count(*tool) <= u32::MAX,
            old(self).next_inner + span_tree::span_count(*tool) <= u64::MAX,
        ensures
            (ToolDraft { draft: final(self).view(), prev: r.0@, y: r.1 as int }) == tool_step(
                ToolDraft { draft: old(self).view(), prev: prev@, y: y as int },
                *t,
                *tool,
            ),
    {
        if tool.kind == SpanKind::ToolUse || tool.kind == SpanKind::Skill {
            let row: i32 = y + RAIL_GAP;
            let id = make_tool_id(t, tool, self.nodes.len());
            let n = make_node(
                t,
                tool,
                kind_of_tool(tool),
                id.clone(),
                tool.name.clone(),
                0,
                row,
            );
            self.push_node(n);
            self.push_edge(prev.as_str(), id.as_str(), FlowEdgeKind::Default);
            self.add_dispatches(t, id.as_str(), row, &tool.children);
            (id, row)
        } else {
            (prev, y)
        }
    }

    fn add_tools(&mut self, first: String, y: i32, t: &TurnSpanTree, kids: &Vec<SpanNode>) -> (r: (
        String,
        i32,
    ))
        requires
            column(*t) <= i32::MAX,
            y + RAIL_GAP * span_tree::span_counts(kids@) <= i32::MAX,
            old(self).next_rail + span_tree::span_counts(kids@) <= u32::MAX,
            old(self).next_inner + span_tree::span_counts(kids@) <= u64::MAX,
        ensures
            (ToolDraft { draft: final(self).view(), prev: r.0@, y: r.1 as int }) == tool_steps(
                ToolDraft { draft: old(self).view(), prev: first@, y: y as int },
                *t,
                kids@,
            ),
    {
        let ghost st = ToolDraft { draft: self.view(), prev: first@, y: y as int };
        let mut prev = first;
        let mut row: i32 = y;
        let mut i: usize = 0;
        assert(kids@.take(0) =~= Seq::<SpanNode>::empty());
        while i < kids.len()
            invariant
                i <= kids@.len(),
                column(*t) <= i32::MAX,
                st.y + RAIL_GAP * span_tree::span_counts(kids@) <= i32::MAX,
                st.draft.next_rail + span_tree::span_counts(kids@) <= u32::MAX,
                st.draft.next_inner + span_tree::span_counts(kids@) <= u64::MAX,
                (ToolDraft { draft: self.view(), prev: prev@, y: row as int }) == tool_steps(
                    st,
                    *t,
                    kids@.take(i as int),
                ),
            decreases kids@.len() - i,
        {
            proof {
                span_tree::lemma_span_counts_take(kids@, i as int);
                lemma_tool_bounds(st, *t, kids@.take(i as int));
                assert(kids@.take(i + 1).drop_last() =~= kids@.take(i as int));
                assert(kids@.take(i + 1).last() == kids@[i as int]);
            }
            let (p, r) = self.add_tool(prev, row, t, &kids[i]);
            prev = p;
            row = r;
            i = i + 1;
        }
        assert(kids@.take(i as int) =~= kids@);
        (prev, row)
    }

    fn add_child(
        &mut self,
        prev: Option<String>,
        index: u32,
        y: i32,
        t: &TurnSpanTree,
        child: &SpanNode,
    ) -> (r: (Option<String>, u32, i32))
        requires
            column(*t) <= i32::MAX,
            y + RAIL_GAP * span_tree::span_count(*child) <= i32::MAX,
            index + span_tree::span_count(*child) <= u32::MAX,
            old(self).next_rail + span_tree::span_count(*child) <= u32::MAX,
            old(self).next_inner + span_tree::span_count(*child) <= u64::MAX,
        ensures
            (TurnDraft {
                draft: final(self).view(),
                prev: text::opt_view(r.0),
                index: r.1 as int,
                y: r.2 as int,
            }) == turn_step(
                TurnDraft {
                    draft: old(self).view(),
                    prev: text::opt_view(prev),
                    index: index as int,
                    y: y as int,
                },
                *t,
                *child,
            ),
    {
        let ghost st = TurnDraft {
            draft: self.view(),
            prev: text::opt_view(prev),
            index: index as int,
            y: y as int,
        };
        if child.kind == SpanKind::Inference {
            let id = make_inference_id(t, index as u64);
            let mut n = make_node(
                t,
                child,
                FlowNodeKind::Inference,
                id.clone(),
                make_inference_label(child),
                0,
                y,
            );
            n.model = match child.attr_string("model") {
                Some(m) => Some(m),
                None => if !child.name.as_str().is_empty() {
                    Some(child.name.clone())
                } else {
                    None
                },
            };
            n.tokens = tokens_from_attrs(child);
            self.push_node(n);
            match prev {
                Some(p) => {
                    self.push_edge(p.as_str(), id.as_str(), FlowEdgeKind::Default);
                },
                None => {},
            }
            assert(self.view() == with_inference(st, *t, *child));
            proof {
                lemma_tool_bounds(
                    ToolDraft { draft: self.view(), prev: id@, y: y as int },
                    *t,
                    child.children@,
                );
            }
            let (last, row) = self.add_tools(id, y, t, &child.children);
            (Some(last), index + 1, row + RAIL_GAP)
        } else if child.kind == SpanKind::Subagent {
            self.next_rail = self.next_rail + 1;
            let rail: u32 = self.next_rail;
            proof {
                lemma_with_rail_bounds(self.view(), *t, *child, rail as int, y + RAIL_GAP);
            }
            let head = self.emit_subagent_rail(t, child, rail, y + RAIL_GAP);
            let anchor = match &prev {
                Some(p) => Some(p.clone()),
                None => match &self.last_main {
                    Some(p) => Some(p.clone()),
                    None => None,
                },
            };
            match anchor {
                Some(from) => {
                    self.push_unattached(from.as_str(), head.as_str());
                },
                None => {},
            }
            (prev, index, y)
        } else {
            (prev, index, y)
        }
    }

    /// Adds one turn.
    fn add_turn(&mut self, t: &TurnSpanTree)
        requires
            column(*t) <= i32::MAX,
            RAIL_GAP * span_tree::span_count(t.root) <= i32::MAX,
            old(self).next_rail + span_tree::span_count(t.root) <= u32::MAX,
        ensures
            final(self).view() == with_turn(old(self).view(), *t),
    {
        let ghost st = turn_start(self.view(), *t);
        let kids = &t.root.children;
        self.next_inner = count_inferences(kids);
        proof {
            lemma_inferences(kids@);
        }
        let mut prev: Option<String> = None;
        let mut index: u32 = 0;
        let mut y: i32 = 0;
        let mut i: usize = 0;
        assert(kids@.take(0) =~= Seq::<SpanNode>::empty());
        while i < kids.len()
            invariant
                i <= kids@.len(),
                column(*t) <= i32::MAX,
                RAIL_GAP * span_tree::span_counts(kids@) <= i32::MAX,
                st.y == 0,
                st.index == 0,
                st.draft.next_rail + span_tree::span_counts(kids@) <= u32::MAX,
                st.draft.next_inner + span_tree::span_counts(kids@) <= u64::MAX,
                (TurnDraft {
                    draft: self.view(),
                    prev: text::opt_view(prev),
                    index: index as int,
                    y: y as int,
                }) == turn_steps(st, *t, kids@.take(i as int)),
            decreases kids@.len() - i,
        {
            proof {
                span_tree::lemma_span_counts_take(kids@, i as int);
                lemma_turn_bounds(st, *t, kids@.take(i as int));
                assert(kids@.take(i + 1).drop_last() =~= kids@.take(i as int));
                assert(kids@.take(i + 1).last() == kids@[i as int]);
            }
            let (p, n, r) = self.add_child(prev, index, y, t, &kids[i]);
            prev = p;
            index = n;
            y = r;
            i = i + 1;
        }
        assert(kids@.take(i as int) =~= kids@);
        match prev {
            Some(id) => {
                self.last_main = Some(id);
            },
            None => {},
        }
    }

    fn next_main_node(&self, from: usize) -> (r: Option<String>)
        ensures
            text::opt_view(r) == next_main(self.view().nodes, from as nat),
    {
        let ghost v = self.view().nodes;
        let mut i: usize = from;
        proof {
            if from <= v.len() {
                assert(next_main(v.take(from as int), from as nat) is None);
            }
        }
        while i < self.nodes.len()
            invariant
                from <= i,
                v == node_views(self.nodes@),
                i <= self.nodes@.len() ==> next_main(v.take(i as int), from as nat) is None,
                i > self.nodes@.len() ==> i == from,
            decreases self.nodes@.len() - i,
        {
            assert(v.take(i + 1).drop_last() =~= v.take(i as int));
            let n = &self.nodes[i];
            assert(v.take(i + 1).last() == n@);
            if n.rail == 0 && n.kind == FlowNodeKind::Inference {
                proof {
                    lemma_next_main_stays(v, from as nat, i + 1);
                }
                return Some(n.id.clone());
            }
            i = i + 1;
        }
        assert(i == v.len() ==> v.take(i as int) =~= v);
        None
    }

    /// The edges between rails with their ends.
    fn finalize_returns(&self) -> (r: Vec<FlowEdge>)
        ensures
            edge_views(r@) == resolved(self.view().nodes, self.view().cross),
    {
        let ghost nodes = self.view().nodes;
        let ghost cross = self.view().cross;
        let mut out: Vec<FlowEdge> = Vec::new();
        let mut i: usize = 0;
        assert(cross.take(0) =~= Seq::<CrossView>::empty());
        assert(edge_views(out@) =~= Seq::<EdgeView>::empty());
        while i < self.cross_rail_edges.len()
            invariant
                i <= self.cross_rail_edges@.len(),
                nodes == self.view().nodes,
                cross == self.view().cross,
                edge_views(out@) == resolved(nodes, cross.take(i as int)),
            decreases self.cross_rail_edges@.len() - i,
        {
            assert(cross.take(i + 1).drop_last() =~= cross.take(i as int));
            assert(cross.take(i + 1).last() == self.cross_rail_edges@[i as int].view());
            let e = &self.cross_rail_edges[i];
            let ghost before = edge_views(out@);
            match &e.to {
                CrossTarget::Node(to) => {
                    out.push(
                        FlowEdge {
                            from: e.from.clone(),
                            to: to.clone(),
                            kind: FlowEdgeKind::Dispatch,
                        },
                    );
                    assert(edge_views(out@) =~= before.push(out@.last()@));
                },
                CrossTarget::Return(from) => {
                    match self.next_main_node(*from) {
                        Some(to) => {
                            out.push(
                                FlowEdge { from: e.from.clone(), to, kind: FlowEdgeKind::Return },
                            );
                            assert(edge_views(out@) =~= before.push(out@.last()@));
                        },
                        None => {},
                    }
                },
            }
            i = i + 1;
        }
        assert(cross.take(i as int) =~= cross);
        out
    }
}

proof fn lemma_next_main_stays(nodes: Seq<NodeView>, from: nat, n: int)
    requires
        0 <= n <= nodes.len(),
        next_main(nodes.take(n), from) is Some,
    ensures
        next_main(nodes, from) == next_main(nodes.take(n), from),
    decreases nodes.len(),
{
    if n == nodes.len() {
        assert(nodes.take(n) =~= nodes);
    } else {
        assert(nodes.drop_last().take(n) =~= nodes.take(n));
        lemma_next_main_stays(nodes.drop_last(), from, n);
        assert(n > from);
    }
}

proof fn lemma_drafted_bounds(trees: Seq<TurnSpanTree>)
    ensures
        drafted(trees).next_rail <= span_tree::total_spans(trees),
    decreases trees.len(),
{
    if trees.len() > 0 {
        lemma_drafted_bounds(trees.drop_last());
        let t = trees.last();
        lemma_turn_bounds(
            turn_start(drafted(trees.drop_last()), t),
            t,
            t.root.children@,
        );
    }
}

proof fn lemma_total_spans_take(trees: Seq<TurnSpanTree>, i: int)
    requires
        0 <= i <= trees.len(),
    ensures
        span_tree::total_spans(trees.take(i)) <= span_tree::total_spans(trees),
        i < trees.len() ==> span_tree::total_spans(trees.take(i)) + span_tree::span_count(trees[i].root)
            <= span_tree::total_spans(trees),
    decreases trees.len() - i,
{
    if i < trees.len() {
        assert(trees.take(i + 1).drop_last() =~= trees.take(i));
        assert(trees.take(i + 1).last() == trees[i]);
        lemma_total_spans_take(trees, i + 1);
    } else {
        assert(trees.take(i) =~= trees);
    }
}

fn to_u32(n: usize) -> (r: u32)
    ensures
        r == clamp_u32(n as nat),
{
    if n > u32::MAX as usize {
        u32::MAX
    } else {
        n as u32
    }
}

/// The graph of a session, from the spans of its turns.
pub fn flow_graph_from_trees(session_id: &str, trees: &[TurnSpanTree], opts: FlowOpts) -> (r:
    FlowGraph)
    requires
        layout_fits(trees@.take(shown(trees@.len(), opts) as int)),
    ensures
        r.session_id@ == session_id@,
        r.total_turn_count == clamp_u32(trees@.len()),
        r.turn_count == clamp_u32(shown(trees@.len(), opts)),
        r.truncated == (r.turn_count < r.total_turn_count),
        node_views(r.nodes@) == drafted(trees@.take(shown(trees@.len(), opts) as int)).nodes,
        edge_views(r.edges@) == ({
            let d = drafted(trees@.take(shown(trees@.len(), opts) as int));
            d.edges + resolved(d.nodes, d.cross) + d.unattached
        }),
{
    let total_turn_count: u32 = to_u32(trees.len());
    let take: usize = count_shown(trees.len(), opts);
    let turn_count: u32 = to_u32(take);
    let ghost all = trees@.take(take as int);
    assert(take == shown(trees@.len(), opts));
    let mut builder = Builder {
        nodes: Vec::new(),
        edges: Vec::new(),
        cross_rail_edges: Vec::new(),
        unattached_edges: Vec::new(),
        next_rail: 0,
        last_main: None,
        next_inner: 0,
    };
    assert(builder.view() =~= Draft::empty());
    let mut i: usize = 0;
    assert(all.take(0) =~= Seq::<TurnSpanTree>::empty());
    while i < take
        invariant
            i <= take <= trees@.len(),
            all == trees@.take(take as int),
            layout_fits(all),
            builder.view() == drafted(all.take(i as int)),
        decreases take - i,
    {
        proof {
            assert(all.take(i + 1).drop_last() =~= all.take(i as int));
            assert(all.take(i + 1).last() == trees@[i as int]);
            assert(all[i as int] == trees@[i as int]);
            lemma_drafted_bounds(all.take(i as int));
            lemma_total_spans_take(all, i as int);
        }
        builder.add_turn(&trees[i]);
        i = i + 1;
    }
    assert(all.take(i as int) =~= all);
    let back = builder.finalize_returns();
    let mut cross = back;
    let ghost cross0 = cross@;
    let Builder { nodes, edges, unattached_edges, .. } = builder;
    let ghost edges0 = edges@;
    let ghost un0 = unattached_edges@;
    let mut edges = edges;
    let mut unattached_edges = unattached_edges;
    edges.append(&mut cross);
    edges.append(&mut unattached_edges);
    assert(edges@ =~= edges0 + cross0 + un0);
    assert(edge_views(edges@) =~= edge_views(edges0) + edge_views(cross0) + edge_views(un0));
    FlowGraph {
        session_id: session_id.to_owned(),
        turn_count,
        total_turn_count,
        truncated: turn_count < total_turn_count,
        nodes,
        edges,
    }
}

/// Whether a node has the id `id`.
pub open spec fn has_id(nodes: Seq<NodeView>, id: Seq<char>) -> bool {
    exists|i: int| 0 <= i < nodes.len() && (#[trigger] nodes[i]).id == id
}

/// Every edge joins two nodes that are there, every node stands in the column
/// of its turn, and no node is on a rail that was not handed out.
pub open spec fn sound(d: Draft) -> bool {
    &&& forall|i: int|
        0 <= i < d.edges.len() ==> has_id(d.nodes, (#[trigger] d.edges[i]).from) && has_id(
            d.nodes,
            d.edges[i].to,
        )
    &&& forall|i: int|
        0 <= i < d.unattached.len() ==> has_id(d.nodes, (#[trigger] d.unattached[i]).from)
            && has_id(d.nodes, d.unattached[i].to)
    &&& forall|i: int|
        0 <= i < d.cross.len() ==> has_id(d.nodes, (#[trigger] d.cross[i]).from) && (
        d.cross[i].to matches TargetView::Node(to) ==> has_id(d.nodes, to))
    &&& forall|i: int|
        0 <= i < d.nodes.len() ==> (#[trigger] d.nodes[i]).x == d.nodes[i].turn_number
            * INTER_TURN_GAP && 0 <= d.nodes[i].rail <= d.next_rail && d.nodes[i].y >= 0
    &&& d.last_main matches Some(id) ==> has_id(d.nodes, id)
    &&& d.next_rail >= 0
}

proof fn lemma_has_id_push(nodes: Seq<NodeView>, n: NodeView)
    ensures
        has_id(nodes.push(n), n.id),
        forall|id: Seq<char>| #[trigger] has_id(nodes, id) ==> has_id(nodes.push(n), id),
{
    assert(nodes.push(n)[nodes.len() as int] == n);
    assert forall|id: Seq<char>| #[trigger] has_id(nodes, id) implies has_id(
        nodes.push(n),
        id,
    ) by {
        let i = choose|i: int| 0 <= i < nodes.len() && (#[trigger] nodes[i]).id == id;
        assert(nodes.push(n)[i] == nodes[i]);
    }
}

proof fn lemma_sound_node(d: Draft, n: NodeView)
    requires
        sound(d),
        n.x == n.turn_number * INTER_TURN_GAP,
        0 <= n.rail <= d.next_rail,
        n.y >= 0,
    ensures
        sound(d.node(n)),
        has_id(d.node(n).nodes, n.id),
        forall|id: Seq<char>| #[trigger] has_id(d.nodes, id) ==> has_id(d.node(n).nodes, id),
{
    lemma_has_id_push(d.nodes, n);
}

proof fn lemma_sound_rail(
    st: RailDraft,
    t: TurnSpanTree,
    rail: int,
    node: SpanNode,
)
    requires
        sound(st.draft),
        has_id(st.draft.nodes, st.prev),
        0 <= rail <= st.draft.next_rail,
        st.y >= 0,
    ensures
        sound(rail_walk(st, t, rail, node).draft),
        has_id(
            rail_walk(st, t, rail, node).draft.nodes,
            rail_walk(st, t, rail, node).prev,
        ),
        rail_walk(st, t, rail, node).y >= 0,
        rail_walk(st, t, rail, node).draft.next_rail == st.draft.next_rail,
        forall|id: Seq<char>| #[trigger]
            has_id(st.draft.nodes, id) ==> has_id(
                rail_walk(st, t, rail, node).draft.nodes,
                id,
            ),
    decreases node,
{
    let y = st.y + RAIL_GAP;
    let s1 = rail_step(st, t, rail, node);
    if node.kind == SpanKind::Inference {
        let id = inference_id(t, st.draft.next_inner);
        let n = NodeView {
            model: span_tree::string_attr(node, "model"@),
            tokens: span_tokens(node),
            ..node_of(t, node, FlowNodeKind::Inference, id, inference_label(node), rail, y)
        };
        lemma_sound_node(st.draft, n);
        assert(sound(s1.draft));
    } else if is_tool(node) {
        let id = tool_id(t, node, st.draft.nodes.len());
        lemma_sound_node(st.draft, node_of(t, node, tool_kind(node), id, node.name@, rail, y));
        assert(sound(s1.draft));
    }
    lemma_sound_rail_kids(s1, t, rail, node.children@);
}

proof fn lemma_sound_rail_kids(
    st: RailDraft,
    t: TurnSpanTree,
    rail: int,
    kids: Seq<SpanNode>,
)
    requires
        sound(st.draft),
        has_id(st.draft.nodes, st.prev),
        0 <= rail <= st.draft.next_rail,
        st.y >= 0,
    ensures
        sound(rail_kids(st, t, rail, kids).draft),
        has_id(
            rail_kids(st, t, rail, kids).draft.nodes,
            rail_kids(st, t, rail, kids).prev,
        ),
        rail_kids(st, t, rail, kids).y >= 0,
        rail_kids(st, t, rail, kids).draft.next_rail == st.draft.next_rail,
        forall|id: Seq<char>| #[trigger]
            has_id(st.draft.nodes, id) ==> has_id(
                rail_kids(st, t, rail, kids).draft.nodes,
                id,
            ),
    decreases kids,
{
    if kids.len() > 0 {
        lemma_sound_rail_kids(st, t, rail, kids.drop_last());
        lemma_sound_rail(
            rail_kids(st, t, rail, kids.drop_last()),
            t,
            rail,
            kids.last(),
        );
    }
}

proof fn lemma_sound_with_rail(d: Draft, t: TurnSpanTree, sub: SpanNode, rail: int, y: int)
    requires
        sound(d),
        0 <= rail <= d.next_rail,
        y >= 0,
    ensures
        sound(with_rail(d, t, sub, rail, y)),
        has_id(with_rail(d, t, sub, rail, y).nodes, rail_head(t, agent_key(sub, rail))),
        with_rail(d, t, sub, rail, y).next_rail == d.next_rail,
        forall|id: Seq<char>| #[trigger]
            has_id(d.nodes, id) ==> has_id(with_rail(d, t, sub, rail, y).nodes, id),
{
    let agent = agent_key(sub, rail);
    let head = rail_head(t, agent);
    let node = NodeView {
        tokens: span_tokens(sub),
        ..node_of(t, sub, FlowNodeKind::Subagent, head, rail_label(sub), rail, y)
    };
    lemma_sound_node(d, node);
    lemma_sound_rail_kids(
        RailDraft { draft: d.node(node), prev: head, y },
        t,
        rail,
        sub.children@,
    );
}

proof fn lemma_sound_more_rails(d: Draft)
    requires
        sound(d),
    ensures
        sound(Draft { next_rail: d.next_rail + 1, ..d }),
{
    let e = Draft { next_rail: d.next_rail + 1, ..d };
    assert forall|i: int| 0 <= i < e.nodes.len() implies (#[trigger] e.nodes[i]).x
        == e.nodes[i].turn_number * INTER_TURN_GAP && 0 <= e.nodes[i].rail <= e.next_rail
        && e.nodes[i].y >= 0 by {
        assert(d.nodes[i] == e.nodes[i]);
    }
}

proof fn lemma_sound_dispatches(
    d: Draft,
    t: TurnSpanTree,
    from: Seq<char>,
    y: int,
    kids: Seq<SpanNode>,
)
    requires
        sound(d),
        has_id(d.nodes, from),
        y >= 0,
    ensures
        sound(with_dispatches(d, t, from, y, kids)),
        forall|id: Seq<char>| #[trigger]
            has_id(d.nodes, id) ==> has_id(with_dispatches(d, t, from, y, kids).nodes, id),
    decreases kids.len(),
{
    if kids.len() > 0 {
        let before = with_dispatches(d, t, from, y, kids.drop_last());
        lemma_sound_dispatches(d, t, from, y, kids.drop_last());
        let sub = kids.last();
        if sub.kind == SpanKind::Subagent {
            let rail = before.next_rail + 1;
            lemma_sound_more_rails(before);
            lemma_sound_with_rail(
                Draft { next_rail: rail, ..before },
                t,
                sub,
                rail,
                y + RAIL_GAP,
            );
        }
    }
}

proof fn lemma_sound_tools(st: ToolDraft, t: TurnSpanTree, kids: Seq<SpanNode>)
    requires
        sound(st.draft),
        has_id(st.draft.nodes, st.prev),
        st.y >= 0,
    ensures
        sound(tool_steps(st, t, kids).draft),
        has_id(tool_steps(st, t, kids).draft.nodes, tool_steps(st, t, kids).prev),
        tool_steps(st, t, kids).y >= 0,
    decreases kids.len(),
{
    if kids.len() > 0 {
        let before = tool_steps(st, t, kids.drop_last());
        let tool = kids.last();
        lemma_sound_tools(st, t, kids.drop_last());
        if is_tool(tool) {
            let y = before.y + RAIL_GAP;
            let id = tool_id(t, tool, before.draft.nodes.len());
            let node = node_of(t, tool, tool_kind(tool), id, tool.name@, 0, y);
            lemma_sound_node(before.draft, node);
            let d = before.draft.node(node).edge(before.prev, id, FlowEdgeKind::Default);
            assert(sound(d));
            lemma_sound_dispatches(d, t, id, y, tool.children@);
        }
    }
}

proof fn lemma_sound_turn(st: TurnDraft, t: TurnSpanTree, kids: Seq<SpanNode>)
    requires
        sound(st.draft),
        st.prev matches Some(p) ==> has_id(st.draft.nodes, p),
        st.y >= 0,
    ensures
        sound(turn_steps(st, t, kids).draft),
        turn_steps(st, t, kids).prev matches Some(p) ==> has_id(
            turn_steps(st, t, kids).draft.nodes,
            p,
        ),
        turn_steps(st, t, kids).y >= 0,
    decreases kids.len(),
{
    if kids.len() > 0 {
        let before = turn_steps(st, t, kids.drop_last());
        let child = kids.last();
        lemma_sound_turn(st, t, kids.drop_last());
        if child.kind == SpanKind::Inference {
            let id = inference_id(t, before.index);
            let node = NodeView {
                model: inference_model(child),
                tokens: span_tokens(child),
                ..node_of(
                    t,
                    child,
                    FlowNodeKind::Inference,
                    id,
                    inference_label(child),
                    0,
                    before.y,
                )
            };
            lemma_sound_node(before.draft, node);
            let d = with_inference(before, t, child);
            assert(sound(d));
            assert(has_id(d.nodes, id));
            lemma_sound_tools(
                ToolDraft { draft: d, prev: id, y: before.y },
                t,
                child.children@,
            );
        } else if child.kind == SpanKind::Subagent {
            let rail = before.draft.next_rail + 1;
            lemma_sound_more_rails(before.draft);
            lemma_sound_with_rail(
                Draft { next_rail: rail, ..before.draft },
                t,
                child,
                rail,
                before.y + RAIL_GAP,
            );
            lemma_with_rail_bounds(
                Draft { next_rail: rail, ..before.draft },
                t,
                child,
                rail,
                before.y + RAIL_GAP,
            );
        }
    }
}

/// The draft of any session is sound.
pub proof fn lemma_drafted_sound(trees: Seq<TurnSpanTree>)
    ensures
        sound(drafted(trees)),
    decreases trees.len(),
{
    if trees.len() > 0 {
        lemma_drafted_sound(trees.drop_last());
        let t = trees.last();
        lemma_sound_turn(
            turn_start(drafted(trees.drop_last()), t),
            t,
            t.root.children@,
        );
    }
}

/// A return leads to the next inference of the main rail, in the same turn or a
/// later one; it is left out only where none follows.
pub proof fn lemma_next_main(nodes: Seq<NodeView>, from: nat)
    ensures
        match next_main(nodes, from) {
            Some(id) => exists|i: int|
                from <= i < nodes.len() && (#[trigger] nodes[i]).id == id && is_main(nodes[i])
                    && forall|j: int| from <= j < i ==> !is_main(#[trigger] nodes[j]),
            None => forall|i: int| from <= i < nodes.len() ==> !is_main(#[trigger] nodes[i]),
        },
    decreases nodes.len(),
{
    if nodes.len() > from {
        let p = nodes.drop_last();
        lemma_next_main(p, from);
        assert(nodes[nodes.len() - 1] == nodes.last());
        assert(forall|i: int| 0 <= i < p.len() ==> #[trigger] nodes[i] == p[i]);
        match next_main(p, from) {
            Some(id) => {
                let i = choose|i: int|
                    from <= i < p.len() && (#[trigger] p[i]).id == id && is_main(p[i])
                        && forall|j: int| from <= j < i ==> !is_main(#[trigger] p[j]);
                assert(nodes[i] == p[i]);
                assert forall|j: int| from <= j < i implies !is_main(#[trigger] nodes[j]) by {
                    assert(nodes[j] == p[j]);
                }
            },
            None => {
                let i = nodes.len() - 1;
                assert forall|j: int| from <= j < i implies !is_main(#[trigger] nodes[j]) by {
                    assert(nodes[j] == p[j]);
                }
            },
        }
    }
}

proof fn lemma_resolved_sound(nodes: Seq<NodeView>, cross: Seq<CrossView>)
    requires
        forall|i: int|
            0 <= i < cross.len() ==> has_id(nodes, (#[trigger] cross[i]).from) && (
            cross[i].to matches TargetView::Node(to) ==> has_id(nodes, to)),
    ensures
        forall|i: int|
            0 <= i < resolved(nodes, cross).len() ==> has_id(
                nodes,
                (#[trigger] resolved(nodes, cross)[i]).from,
            ) && has_id(nodes, resolved(nodes, cross)[i].to),
    decreases cross.len(),
{
    if cross.len() > 0 {
        let p = cross.drop_last();
        assert forall|i: int| 0 <= i < p.len() implies has_id(nodes, (#[trigger] p[i]).from) && (
        p[i].to matches TargetView::Node(to) ==> has_id(nodes, to)) by {
            assert(p[i] == cross[i]);
        }
        lemma_resolved_sound(nodes, p);
        assert(cross[cross.len() - 1] == cross.last());
        match cross.last().to {
            TargetView::Return(from) => {
                lemma_next_main(nodes, from);
            },
            TargetView::Node(to) => {},
        }
    }
}

proof fn lemma_inference_id(t: TurnSpanTree, a: int, u: TurnSpanTree, b: int)
    requires
        a >= 0,
        b >= 0,
        inference_id(t, a) == inference_id(u, b),
    ensures
        t.turn_id@ == u.turn_id@,
        a == b,
{
    reveal_strlit(":inf-");
    let mark = ":inf-"@;
    let x = t.turn_id@;
    let y = u.turn_id@;
    let dx = text::decimal(a as nat);
    let dy = text::decimal(b as nat);
    let s = inference_id(t, a);
    text::lemma_decimal_digits(a as nat);
    text::lemma_decimal_digits(b as nat);
    assert(s[x.len() as int] == mark[0]);
    assert(s[y.len() as int] == mark[0]) by {
        assert(inference_id(u, b)[y.len() as int] == mark[0]);
    }
    assert forall|i: int| x.len() < i < s.len() implies s[i] != ':' by {
        if i < x.len() + 5 {
            assert(s[i] == mark[i - x.len()]);
        } else {
            assert(s[i] == dx[i - x.len() - 5]);
        }
    }
    assert forall|i: int| y.len() < i < s.len() implies s[i] != ':' by {
        if i < y.len() + 5 {
            assert(inference_id(u, b)[i] == mark[i - y.len()]);
        } else {
            assert(inference_id(u, b)[i] == dy[i - y.len() - 5]);
        }
    }
    assert(x.len() == y.len());
    assert(x =~= s.take(x.len() as int));
    assert(y =~= inference_id(u, b).take(x.len() as int));
    assert(dx =~= s.skip((x.len() + 5) as int));
    assert(dy =~= inference_id(u, b).skip((x.len() + 5) as int));
    text::lemma_decimal_apart(a as nat, b as nat);
}

/// No two inferences have the same id.
pub open spec fn ids_apart(nodes: Seq<NodeView>) -> bool {
    forall|i: int, j: int|
        #![trigger nodes[i], nodes[j]]
        0 <= i < j < nodes.len() && nodes[i].kind == FlowNodeKind::Inference && nodes[j].kind
            == FlowNodeKind::Inference ==> nodes[i].id != nodes[j].id
}

/// Whether the id is that of inference `k` of the turn, for a `k` that was handed
/// out: below `lo` on the main rail, or from `mid` up to `hi` on the others.
spec fn is_handed_out(id: Seq<char>, t: TurnSpanTree, lo: int, mid: int, hi: int) -> bool {
    exists|k: int|
        id == #[trigger] inference_id(t, k) && (0 <= k < lo || mid <= k < hi)
}

/// Where the ids of inferences stand in turn `t`, whose first node is `from`.
spec fn ids_in(d: Draft, from: int, t: TurnSpanTree, lo: int, mid: int) -> bool {
    &&& 0 <= lo <= mid <= d.next_inner
    &&& 0 <= from <= d.nodes.len()
    &&& ids_apart(d.nodes)
    &&& forall|i: int, k: int|
        0 <= i < from && d.nodes[i].kind == FlowNodeKind::Inference && 0 <= k
            ==> #[trigger] d.nodes[i].id != #[trigger] inference_id(t, k)
    &&& forall|i: int|
        from <= i < d.nodes.len() && (#[trigger] d.nodes[i]).kind == FlowNodeKind::Inference
            ==> is_handed_out(d.nodes[i].id, t, lo, mid, d.next_inner)
}

proof fn lemma_ids_more(id: Seq<char>, t: TurnSpanTree, lo: int, mid: int, hi: int, lo2: int, hi2: int)
    requires
        is_handed_out(id, t, lo, mid, hi),
        lo <= lo2,
        hi <= hi2,
    ensures
        is_handed_out(id, t, lo2, mid, hi2),
{
    let k = choose|k: int|
        id == #[trigger] inference_id(t, k) && (0 <= k < lo || mid <= k < hi);
    assert(id == inference_id(t, k));
}

/// A node that is no inference changes nothing.
proof fn lemma_ids_other(d: Draft, e: Draft, n: NodeView, from: int, t: TurnSpanTree, lo: int, mid: int)
    requires
        ids_in(d, from, t, lo, mid),
        e.nodes == d.nodes.push(n),
        e.next_inner == d.next_inner,
        n.kind != FlowNodeKind::Inference,
    ensures
        ids_in(e, from, t, lo, mid),
{
    assert forall|i: int, j: int|
        #![trigger e.nodes[i], e.nodes[j]]
        0 <= i < j < e.nodes.len() && e.nodes[i].kind == FlowNodeKind::Inference && e.nodes[j].kind
            == FlowNodeKind::Inference implies e.nodes[i].id != e.nodes[j].id by {
        assert(e.nodes[i] == d.nodes[i] && e.nodes[j] == d.nodes[j]);
    }
    assert forall|i: int|
        from <= i < e.nodes.len() && (#[trigger] e.nodes[i]).kind
            == FlowNodeKind::Inference implies is_handed_out(
        e.nodes[i].id,
        t,
        lo,
        mid,
        e.next_inner,
    ) by {
        assert(e.nodes[i] == d.nodes[i]);
    }
    assert forall|i: int, k: int|
        0 <= i < from && e.nodes[i].kind == FlowNodeKind::Inference && 0 <= k implies #[trigger] e.nodes[i].id
        != #[trigger] inference_id(t, k) by {
        assert(e.nodes[i] == d.nodes[i]);
    }
}

/// The next inference, on the main rail or on another one, has an id of its own.
proof fn lemma_ids_inference(
    d: Draft,
    e: Draft,
    n: NodeView,
    from: int,
    t: TurnSpanTree,
    lo: int,
    mid: int,
    lo2: int,
    k: int,
)
    requires
        ids_in(d, from, t, lo, mid),
        e.nodes == d.nodes.push(n),
        n.id == inference_id(t, k),
        (k == lo && lo2 == lo + 1 && lo < mid && e.next_inner == d.next_inner) || (k == d.next_inner
            && lo2 == lo && e.next_inner == d.next_inner + 1),
    ensures
        ids_in(e, from, t, lo2, mid),
{
    let last = d.nodes.len() as int;
    assert forall|i: int|
        0 <= i < last && (#[trigger] e.nodes[i]).kind == FlowNodeKind::Inference implies e.nodes[i].id
        != n.id by {
        assert(e.nodes[i] == d.nodes[i]);
        if i < from {
            assert(d.nodes[i].id != inference_id(t, k));
        } else {
            assert(is_handed_out(d.nodes[i].id, t, lo, mid, d.next_inner));
            let j = choose|j: int|
                d.nodes[i].id == #[trigger] inference_id(t, j) && (0 <= j < lo || mid <= j
                    < d.next_inner);
            if d.nodes[i].id == n.id {
                lemma_inference_id(t, j, t, k);
            }
        }
    }
    assert forall|i: int, j: int|
        #![trigger e.nodes[i], e.nodes[j]]
        0 <= i < j < e.nodes.len() && e.nodes[i].kind == FlowNodeKind::Inference && e.nodes[j].kind
            == FlowNodeKind::Inference implies e.nodes[i].id != e.nodes[j].id by {
        assert(e.nodes[i] == d.nodes[i]);
        if j < last {
            assert(e.nodes[j] == d.nodes[j]);
        }
    }
    assert forall|i: int|
        from <= i < e.nodes.len() && (#[trigger] e.nodes[i]).kind
            == FlowNodeKind::Inference implies is_handed_out(
        e.nodes[i].id,
        t,
        lo2,
        mid,
        e.next_inner,
    ) by {
        if i < last {
            assert(e.nodes[i] == d.nodes[i]);
            lemma_ids_more(d.nodes[i].id, t, lo, mid, d.next_inner, lo2, e.next_inner);
        } else {
            assert(e.nodes[i].id == inference_id(t, k));
        }
    }
    assert forall|i: int, j: int|
        0 <= i < from && e.nodes[i].kind == FlowNodeKind::Inference && 0 <= j implies #[trigger] e.nodes[i].id
        != #[trigger] inference_id(t, j) by {
        assert(e.nodes[i] == d.nodes[i]);
    }
}

proof fn lemma_ids_rail(
    st: RailDraft,
    t: TurnSpanTree,
    rail: int,
    node: SpanNode,
    from: int,
    lo: int,
    mid: int,
)
    requires
        ids_in(st.draft, from, t, lo, mid),
    ensures
        ids_in(rail_walk(st, t, rail, node).draft, from, t, lo, mid),
    decreases node,
{
    let s1 = rail_step(st, t, rail, node);
    if node.kind == SpanKind::Inference {
        let n = s1.draft.nodes.last();
        lemma_ids_inference(
            st.draft,
            s1.draft,
            n,
            from,
            t,
            lo,
            mid,
            lo,
            st.draft.next_inner,
        );
    } else if is_tool(node) {
        lemma_ids_other(st.draft, s1.draft, s1.draft.nodes.last(), from, t, lo, mid);
    }
    lemma_ids_rail_kids(s1, t, rail, node.children@, from, lo, mid);
}

proof fn lemma_ids_rail_kids(
    st: RailDraft,
    t: TurnSpanTree,
    rail: int,
    kids: Seq<SpanNode>,
    from: int,
    lo: int,
    mid: int,
)
    requires
        ids_in(st.draft, from, t, lo, mid),
    ensures
        ids_in(rail_kids(st, t, rail, kids).draft, from, t, lo, mid),
    decreases kids,
{
    if kids.len() > 0 {
        lemma_ids_rail_kids(st, t, rail, kids.drop_last(), from, lo, mid);
        lemma_ids_rail(
            rail_kids(st, t, rail, kids.drop_last()),
            t,
            rail,
            kids.last(),
            from,
            lo,
            mid,
        );
    }
}

proof fn lemma_ids_with_rail(
    d: Draft,
    t: TurnSpanTree,
    sub: SpanNode,
    rail: int,
    y: int,
    from: int,
    lo: int,
    mid: int,
)
    requires
        ids_in(d, from, t, lo, mid),
    ensures
        ids_in(with_rail(d, t, sub, rail, y), from, t, lo, mid),
{
    let head = rail_head(t, agent_key(sub, rail));
    let node = NodeView {
        tokens: span_tokens(sub),
        ..node_of(t, sub, FlowNodeKind::Subagent, head, rail_label(sub), rail, y)
    };
    lemma_ids_other(d, d.node(node), node, from, t, lo, mid);
    lemma_ids_rail_kids(
        RailDraft { draft: d.node(node), prev: head, y },
        t,
        rail,
        sub.children@,
        from,
        lo,
        mid,
    );
}

proof fn lemma_ids_dispatches(
    d: Draft,
    t: TurnSpanTree,
    by: Seq<char>,
    y: int,
    kids: Seq<SpanNode>,
    from: int,
    lo: int,
    mid: int,
)
    requires
        ids_in(d, from, t, lo, mid),
    ensures
        ids_in(with_dispatches(d, t, by, y, kids), from, t, lo, mid),
    decreases kids.len(),
{
    if kids.len() > 0 {
        let before = with_dispatches(d, t, by, y, kids.drop_last());
        lemma_ids_dispatches(d, t, by, y, kids.drop_last(), from, lo, mid);
        let rail = before.next_rail + 1;
        lemma_ids_with_rail(
            Draft { next_rail: rail, ..before },
            t,
            kids.last(),
            rail,
            y + RAIL_GAP,
            from,
            lo,
            mid,
        );
    }
}

proof fn lemma_ids_tools(
    st: ToolDraft,
    t: TurnSpanTree,
    kids: Seq<SpanNode>,
    from: int,
    lo: int,
    mid: int,
)
    requires
        ids_in(st.draft, from, t, lo, mid),
    ensures
        ids_in(tool_steps(st, t, kids).draft, from, t, lo, mid),
    decreases kids.len(),
{
    if kids.len() > 0 {
        let before = tool_steps(st, t, kids.drop_last());
        let tool = kids.last();
        lemma_ids_tools(st, t, kids.drop_last(), from, lo, mid);
        if is_tool(tool) {
            let y = before.y + RAIL_GAP;
            let id = tool_id(t, tool, before.draft.nodes.len());
            let node = node_of(t, tool, tool_kind(tool), id, tool.name@, 0, y);
            let d = before.draft.node(node).edge(before.prev, id, FlowEdgeKind::Default);
            lemma_ids_other(before.draft, d, node, from, t, lo, mid);
            lemma_ids_dispatches(d, t, id, y, tool.children@, from, lo, mid);
        }
    }
}

proof fn lemma_ids_turn(st: TurnDraft, t: TurnSpanTree, kids: Seq<SpanNode>, from: int, mid: int)
    requires
        ids_in(st.draft, from, t, st.index, mid),
        st.index + inferences(kids) <= mid,
    ensures
        ids_in(turn_steps(st, t, kids).draft, from, t, st.index + inferences(kids), mid),
        turn_steps(st, t, kids).index == st.index + inferences(kids),
    decreases kids.len(),
{
    if kids.len() > 0 {
        let before = turn_steps(st, t, kids.drop_last());
        let child = kids.last();
        lemma_ids_turn(st, t, kids.drop_last(), from, mid);
        let lo = before.index;
        if child.kind == SpanKind::Inference {
            let d = with_inference(before, t, child);
            let n = d.nodes.last();
            lemma_ids_inference(before.draft, d, n, from, t, lo, mid, lo + 1, lo);
            lemma_ids_tools(
                ToolDraft { draft: d, prev: inference_id(t, lo), y: before.y },
                t,
                child.children@,
                from,
                lo + 1,
                mid,
            );
        } else if child.kind == SpanKind::Subagent {
            let rail = before.draft.next_rail + 1;
            lemma_ids_with_rail(
                Draft { next_rail: rail, ..before.draft },
                t,
                child,
                rail,
                before.y + RAIL_GAP,
                from,
                lo,
                mid,
            );
        }
    }
}

/// Whether the id is one that an inference of one of the turns can have.
spec fn is_of_turns(id: Seq<char>, trees: Seq<TurnSpanTree>) -> bool {
    exists|m: int, k: int|
        0 <= m < trees.len() && 0 <= k && id == #[trigger] inference_id(trees[m], k)
}

proof fn lemma_ids_drafted(trees: Seq<TurnSpanTree>)
    requires
        forall|i: int, j: int|
            #![trigger trees[i], trees[j]]
            0 <= i < j < trees.len() ==> trees[i].turn_id@ != trees[j].turn_id@,
    ensures
        ids_apart(drafted(trees).nodes),
        forall|i: int|
            0 <= i < drafted(trees).nodes.len() && (#[trigger] drafted(trees).nodes[i]).kind
                == FlowNodeKind::Inference ==> is_of_turns(drafted(trees).nodes[i].id, trees),
    decreases trees.len(),
{
    if trees.len() > 0 {
        let most = trees.drop_last();
        let t = trees.last();
        let last = trees.len() - 1;
        assert(trees[last] == t);
        assert forall|i: int, j: int|
            #![trigger most[i], most[j]]
            0 <= i < j < most.len() implies most[i].turn_id@ != most[j].turn_id@ by {
            assert(most[i] == trees[i] && most[j] == trees[j]);
        }
        lemma_ids_drafted(most);
        let d = drafted(most);
        let st = turn_start(d, t);
        let from = d.nodes.len() as int;
        let kids = t.root.children@;
        let mid = inferences(kids) as int;
        assert forall|i: int, k: int|
            0 <= i < from && d.nodes[i].kind == FlowNodeKind::Inference && 0 <= k implies #[trigger] d.nodes[i].id
            != #[trigger] inference_id(t, k) by {
            assert(is_of_turns(d.nodes[i].id, most));
            let (m, j) = choose|m: int, j: int|
                0 <= m < most.len() && 0 <= j && d.nodes[i].id == #[trigger] inference_id(most[m], j);
            if d.nodes[i].id == inference_id(t, k) {
                lemma_inference_id(most[m], j, t, k);
                assert(trees[m] == most[m]);
                assert(trees[m].turn_id@ != trees[last].turn_id@);
            }
        }
        assert(ids_in(st.draft, from, t, 0, mid));
        lemma_ids_turn(st, t, kids, from, mid);
        lemma_turn_keeps(st, t, kids);
        let now = drafted(trees).nodes;
        let end = turn_steps(st, t, kids).draft;
        assert(now == end.nodes);
        assert forall|i: int|
            0 <= i < now.len() && (#[trigger] now[i]).kind
                == FlowNodeKind::Inference implies is_of_turns(now[i].id, trees) by {
            if i < from {
                assert(now[i] == d.nodes[i]);
                let (m, j) = choose|m: int, j: int|
                    0 <= m < most.len() && 0 <= j && d.nodes[i].id == #[trigger] inference_id(
                        most[m],
                        j,
                    );
                assert(trees[m] == most[m]);
                assert(now[i].id == inference_id(trees[m], j));
            } else {
                assert(is_handed_out(end.nodes[i].id, t, mid, mid, end.next_inner));
                let k = choose|k: int|
                    end.nodes[i].id == #[trigger] inference_id(t, k) && (0 <= k < mid || mid <= k
                        < end.next_inner);
                assert(now[i].id == inference_id(trees[last], k));
            }
        }
    }
}

/// Nodes that are there stay where they are.
spec fn keeps(d: Draft, e: Draft) -> bool {
    d.nodes.len() <= e.nodes.len() && forall|i: int|
        0 <= i < d.nodes.len() ==> #[trigger] e.nodes[i] == d.nodes[i]
}

proof fn lemma_rail_keeps(st: RailDraft, t: TurnSpanTree, rail: int, node: SpanNode)
    ensures
        keeps(st.draft, rail_walk(st, t, rail, node).draft),
    decreases node,
{
    lemma_rail_kids_keep(rail_step(st, t, rail, node), t, rail, node.children@);
}

proof fn lemma_rail_kids_keep(st: RailDraft, t: TurnSpanTree, rail: int, kids: Seq<SpanNode>)
    ensures
        keeps(st.draft, rail_kids(st, t, rail, kids).draft),
    decreases kids,
{
    if kids.len() > 0 {
        lemma_rail_kids_keep(st, t, rail, kids.drop_last());
        lemma_rail_keeps(rail_kids(st, t, rail, kids.drop_last()), t, rail, kids.last());
    }
}

proof fn lemma_with_rail_keeps(d: Draft, t: TurnSpanTree, sub: SpanNode, rail: int, y: int)
    ensures
        keeps(d, with_rail(d, t, sub, rail, y)),
{
    let head = rail_head(t, agent_key(sub, rail));
    let node = NodeView {
        tokens: span_tokens(sub),
        ..node_of(t, sub, FlowNodeKind::Subagent, head, rail_label(sub), rail, y)
    };
    lemma_rail_kids_keep(
        RailDraft { draft: d.node(node), prev: head, y },
        t,
        rail,
        sub.children@,
    );
}

proof fn lemma_dispatches_keep(
    d: Draft,
    t: TurnSpanTree,
    by: Seq<char>,
    y: int,
    kids: Seq<SpanNode>,
)
    ensures
        keeps(d, with_dispatches(d, t, by, y, kids)),
    decreases kids.len(),
{
    if kids.len() > 0 {
        let before = with_dispatches(d, t, by, y, kids.drop_last());
        lemma_dispatches_keep(d, t, by, y, kids.drop_last());
        let rail = before.next_rail + 1;
        lemma_with_rail_keeps(
            Draft { next_rail: rail, ..before },
            t,
            kids.last(),
            rail,
            y + RAIL_GAP,
        );
    }
}

proof fn lemma_tools_keep(st: ToolDraft, t: TurnSpanTree, kids: Seq<SpanNode>)
    ensures
        keeps(st.draft, tool_steps(st, t, kids).draft),
    decreases kids.len(),
{
    if kids.len() > 0 {
        let before = tool_steps(st, t, kids.drop_last());
        let tool = kids.last();
        lemma_tools_keep(st, t, kids.drop_last());
        if is_tool(tool) {
            let y = before.y + RAIL_GAP;
            let id = tool_id(t, tool, before.draft.nodes.len());
            let node = node_of(t, tool, tool_kind(tool), id, tool.name@, 0, y);
            let d = before.draft.node(node).edge(before.prev, id, FlowEdgeKind::Default);
            lemma_dispatches_keep(d, t, id, y, tool.children@);
        }
    }
}

proof fn lemma_turn_keeps(st: TurnDraft, t: TurnSpanTree, kids: Seq<SpanNode>)
    ensures
        keeps(st.draft, turn_steps(st, t, kids).draft),
    decreases kids.len(),
{
    if kids.len() > 0 {
        let before = turn_steps(st, t, kids.drop_last());
        let child = kids.last();
        lemma_turn_keeps(st, t, kids.drop_last());
        if child.kind == SpanKind::Inference {
            lemma_tools_keep(
                ToolDraft {
                    draft: with_inference(before, t, child),
                    prev: inference_id(t, before.index),
                    y: before.y,
                },
                t,
                child.children@,
            );
        } else if child.kind == SpanKind::Subagent {
            let rail = before.draft.next_rail + 1;
            lemma_with_rail_keeps(
                Draft { next_rail: rail, ..before.draft },
                t,
                child,
                rail,
                before.y + RAIL_GAP,
            );
        }
    }
}

/// Where the turns of a session have ids of their own, no two inferences of its
/// graph share an id, on whatever rails they are.
pub proof fn lemma_inference_ids_apart(trees: Seq<TurnSpanTree>)
    requires
        forall|i: int, j: int|
            #![trigger trees[i], trees[j]]
            0 <= i < j < trees.len() ==> trees[i].turn_id@ != trees[j].turn_id@,
    ensures
        ids_apart(drafted(trees).nodes),
{
    lemma_ids_drafted(trees);
}

/// A tool use with an id of its own has the same node id on the main rail and on
/// any subagent rail.
pub proof fn lemma_same_tool_id(
    main: ToolDraft,
    inner: RailDraft,
    t: TurnSpanTree,
    rail: int,
    tool: SpanNode,
)
    requires
        is_tool(tool),
        span_tree::string_attr(tool, "tool_use_id"@) is Some,
    ensures
        tool_step(main, t, tool).prev == rail_step(inner, t, rail, tool).prev,
{
}

/// Every edge of the graph joins two of its nodes.
pub proof fn lemma_edges_join_nodes(trees: Seq<TurnSpanTree>, i: int)
    requires
        ({
            let d = drafted(trees);
            0 <= i < (d.edges + resolved(d.nodes, d.cross) + d.unattached).len()
        }),
    ensures
        ({
            let d = drafted(trees);
            let e = (d.edges + resolved(d.nodes, d.cross) + d.unattached)[i];
            has_id(d.nodes, e.from) && has_id(d.nodes, e.to)
        }),
{
    let d = drafted(trees);
    lemma_drafted_sound(trees);
    lemma_resolved_sound(d.nodes, d.cross);
    let r = resolved(d.nodes, d.cross);
    if i < d.edges.len() {
        assert(d.edges[i].from == d.edges[i].from);
    } else if i < d.edges.len() + r.len() {
        assert(r[i - d.edges.len()].from == r[i - d.edges.len()].from);
    } else {
        let k = i - d.edges.len() - r.len();
        assert(d.unattached[k].from == d.unattached[k].from);
    }
}

} // verus!
