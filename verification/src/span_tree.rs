//! The spans of one turn as a tree.

use crate::text;
use vstd::prelude::*;

verus! {

/// What a span stands for.
#[derive(Debug, Clone, Copy, PartialEq, Eq, Structural)]
pub enum SpanKind {
    Turn,
    Inference,
    ToolUse,
    ToolResult,
    UserPrompt,
    Subagent,
    Skill,
}

/// How a span ended.
#[derive(Debug, Clone, Copy, PartialEq, Eq, Structural)]
pub enum SpanStatus {
    Unset,
    Success,
    Error,
}

/// The value of an attribute.
#[derive(Debug, Clone, PartialEq)]
pub enum AttrValue {
    Str(String),
    Int(i64),
    Bool(bool),
}

/// An attribute of a span.
#[derive(Debug, Clone, PartialEq)]
pub struct Attr {
    pub key: String,
    pub value: AttrValue,
}

/// One span with the spans below it.
#[derive(Debug)]
pub struct SpanNode {
    pub kind: SpanKind,
    pub name: String,
    pub attributes: Vec<Attr>,
    /// Milliseconds since the epoch; 0 where the time is not known.
    pub start_ms: i64,
    /// Milliseconds since the epoch; 0 where the time is not known.
    pub end_ms: i64,
    pub status: SpanStatus,
    pub children: Vec<SpanNode>,
}

/// The spans of one turn of a session.
#[derive(Debug)]
pub struct TurnSpanTree {
    pub session_id: String,
    pub turn_id: String,
    /// Counted from 0 within the session.
    pub turn_number: u32,
    pub root: SpanNode,
}

/// The value of the first attribute `key`.
pub open spec fn find_attr(attrs: Seq<Attr>, key: Seq<char>) -> Option<AttrValue>
    decreases attrs.len(),
{
    if attrs.len() == 0 {
        None
    } else if attrs[0].key@ == key {
        Some(attrs[0].value)
    } else {
        find_attr(attrs.drop_first(), key)
    }
}

/// The string under `key`, if the value there is one.
pub open spec fn string_attr(node: SpanNode, key: Seq<char>) -> Option<Seq<char>> {
    match find_attr(node.attributes@, key) {
        Some(AttrValue::Str(s)) => Some(s@),
        _ => None,
    }
}

/// The number under `key`, if the value there is one.
pub open spec fn int_attr(node: SpanNode, key: Seq<char>) -> Option<i64> {
    match find_attr(node.attributes@, key) {
        Some(AttrValue::Int(v)) => Some(v),
        _ => None,
    }
}

/// Whether the value under `key` is `true`.
pub open spec fn flag_attr(node: SpanNode, key: Seq<char>) -> bool {
    find_attr(node.attributes@, key) == Some(AttrValue::Bool(true))
}

/// Number of spans in the tree under `node`, itself included.
pub open spec fn span_count(node: SpanNode) -> nat
    decreases node,
{
    1 + span_counts(node.children@)
}

/// Number of spans in the trees under `kids`.
pub open spec fn span_counts(kids: Seq<SpanNode>) -> nat
    decreases kids,
{
    if kids.len() == 0 {
        0
    } else {
        span_counts(kids.drop_last()) + span_count(kids.last())
    }
}

/// The spans of the last tree come on top of those of the others.
pub proof fn lemma_span_counts_last(kids: Seq<SpanNode>)
    requires
        kids.len() > 0,
    ensures
        span_counts(kids) == span_counts(kids.drop_last()) + 1 + span_counts(
            kids.last().children@,
        ),
{
    assert(span_count(kids.last()) == 1 + span_counts(kids.last().children@));
}

/// Leading spans are no more than all.
pub proof fn lemma_span_counts_take(kids: Seq<SpanNode>, i: int)
    requires
        0 <= i <= kids.len(),
    ensures
        span_counts(kids.take(i)) <= span_counts(kids),
        i < kids.len() ==> span_counts(kids.take(i + 1)) == span_counts(kids.take(i)) + span_count(
            kids[i],
        ),
        i < kids.len() ==> span_counts(kids.take(i)) + span_count(kids[i]) <= span_counts(kids),
    decreases kids.len() - i,
{
    if i < kids.len() {
        assert(kids.take(i + 1).drop_last() =~= kids.take(i));
        assert(kids.take(i + 1).last() == kids[i]);
        lemma_span_counts_take(kids, i + 1);
    } else {
        assert(kids.take(i) =~= kids);
    }
}

/// Number of spans of the turns.
pub open spec fn total_spans(trees: Seq<TurnSpanTree>) -> nat
    decreases trees.len(),
{
    if trees.len() == 0 {
        0
    } else {
        total_spans(trees.drop_last()) + span_count(trees.last().root)
    }
}

/// Leading turns have no more spans than all.
pub proof fn lemma_total_spans(trees: Seq<TurnSpanTree>, i: int)
    requires
        0 <= i <= trees.len(),
    ensures
        total_spans(trees.take(i)) <= total_spans(trees),
    decreases trees.len() - i,
{
    if i < trees.len() {
        assert(trees.take(i + 1).drop_last() =~= trees.take(i));
        lemma_total_spans(trees, i + 1);
    } else {
        assert(trees.take(i) =~= trees);
    }
}

/// Number of spans in the tree under `node`; `None` where it is over `limit`.
pub fn count_spans(node: &SpanNode, limit: u64) -> (r: Option<u64>)
    ensures
        match r {
            Some(n) => n == span_count(*node) && n <= limit,
            None => span_count(*node) > limit,
        },
    decreases node,
{
    if limit == 0 {
        return None;
    }
    match count_all_spans(&node.children, limit - 1) {
        Some(n) => Some(n + 1),
        None => None,
    }
}

fn count_all_spans(kids: &Vec<SpanNode>, limit: u64) -> (r: Option<u64>)
    ensures
        match r {
            Some(n) => n == span_counts(kids@) && n <= limit,
            None => span_counts(kids@) > limit,
        },
    decreases kids,
{
    let mut n: u64 = 0;
    let mut i: usize = 0;
    assert(kids@.take(0) =~= Seq::<SpanNode>::empty());
    while i < kids.len()
        invariant
            i <= kids@.len(),
            n == span_counts(kids@.take(i as int)),
            n <= limit,
        decreases kids@.len() - i,
    {
        proof {
            lemma_span_counts_take(kids@, i as int);
            assert(decreases_to!(kids => kids@[i as int]));
        }
        match count_spans(&kids[i], limit - n) {
            Some(m) => {
                n = n + m;
            },
            None => {
                return None;
            },
        }
        i = i + 1;
    }
    assert(kids@.take(i as int) =~= kids@);
    Some(n)
}

impl AttrValue {
    /// A string value.
    pub fn str(s: &str) -> (r: AttrValue)
        ensures
            r matches AttrValue::Str(t) && t@ == s@,
    {
        AttrValue::Str(s.to_owned())
    }
}

impl SpanNode {
    /// A span without attributes, times or spans below it.
    pub fn new(kind: SpanKind, name: &str) -> (r: SpanNode)
        ensures
            r.kind == kind,
            r.name@ == name@,
            r.attributes@.len() == 0,
            r.start_ms == 0,
            r.end_ms == 0,
            r.status == SpanStatus::Unset,
            r.children@.len() == 0,
    {
        SpanNode {
            kind,
            name: name.to_owned(),
            attributes: Vec::new(),
            start_ms: 0,
            end_ms: 0,
            status: SpanStatus::Unset,
            children: Vec::new(),
        }
    }

    /// Sets the attribute `key`, in place of the value that it had.
    pub fn set_attr(&mut self, key: &str, value: AttrValue)
        ensures
            find_attr(final(self).attributes@, key@) == Some(value),
            forall|k: Seq<char>|
                k != key@ ==> #[trigger] find_attr(final(self).attributes@, k) == find_attr(
                    old(self).attributes@,
                    k,
                ),
            final(self).kind == old(self).kind,
            final(self).name == old(self).name,
            final(self).start_ms == old(self).start_ms,
            final(self).end_ms == old(self).end_ms,
            final(self).status == old(self).status,
            final(self).children == old(self).children,
    {
        let n: usize = self.attributes.len();
        let mut i: usize = 0;
        let ghost attrs = self.attributes@;
        while i < n
            invariant
                i <= n,
                n == attrs.len(),
                *self == *old(self),
                attrs == self.attributes@,
                forall|k: int| 0 <= k < i ==> (#[trigger] attrs[k]).key@ != key@,
            decreases n - i,
        {
            if text::same(self.attributes[i].key.as_str(), key) {
                let attr = Attr { key: key.to_owned(), value };
                proof {
                    lemma_set_attr(attrs, attr, i as int);
                }
                self.attributes.set(i, attr);
                return ;
            }
            i = i + 1;
        }
        let attr = Attr { key: key.to_owned(), value };
        proof {
            lemma_push_attr(attrs, attr);
        }
        self.attributes.push(attr);
    }

    /// The value of the attribute `key`.
    pub fn attr(&self, key: &str) -> (r: Option<&AttrValue>)
        ensures
            (match r {
                Some(v) => Some(*v),
                None => None,
            }) == find_attr(self.attributes@, key@),
    {
        let ghost attrs = self.attributes@;
        let mut i: usize = 0;
        assert(attrs.skip(0) =~= attrs);
        while i < self.attributes.len()
            invariant
                i <= self.attributes@.len(),
                attrs == self.attributes@,
                find_attr(attrs, key@) == find_attr(attrs.skip(i as int), key@),
            decreases self.attributes@.len() - i,
        {
            assert(attrs.skip(i as int)[0] == attrs[i as int]);
            if text::same(self.attributes[i].key.as_str(), key) {
                return Some(&self.attributes[i].value);
            }
            assert(attrs.skip(i as int).drop_first() =~= attrs.skip(i + 1));
            i = i + 1;
        }
        None
    }

    /// The string under `key`, if the value there is one.
    pub fn attr_string(&self, key: &str) -> (r: Option<String>)
        ensures
            text::opt_view(r) == string_attr(*self, key@),
    {
        match self.attr(key) {
            Some(v) => match v {
                AttrValue::Str(s) => Some(s.clone()),
                _ => None,
            },
            None => None,
        }
    }

    /// The number under `key`, if the value there is one.
    pub fn attr_int(&self, key: &str) -> (r: Option<i64>)
        ensures
            r == int_attr(*self, key@),
    {
        match self.attr(key) {
            Some(v) => match v {
                AttrValue::Int(i) => Some(*i),
                _ => None,
            },
            None => None,
        }
    }

    /// Whether the value under `key` is `true`.
    pub fn attr_is_true(&self, key: &str) -> (r: bool)
        ensures
            r == flag_attr(*self, key@),
    {
        match self.attr(key) {
            Some(v) => match v {
                AttrValue::Bool(b) => *b,
                _ => false,
            },
            None => false,
        }
    }
}

proof fn lemma_set_attr(attrs: Seq<Attr>, attr: Attr, i: int)
    requires
        0 <= i < attrs.len(),
        attrs[i].key@ == attr.key@,
        forall|k: int| 0 <= k < i ==> (#[trigger] attrs[k]).key@ != attr.key@,
    ensures
        find_attr(attrs.update(i, attr), attr.key@) == Some(attr.value),
        forall|k: Seq<char>|
            k != attr.key@ ==> #[trigger] find_attr(attrs.update(i, attr), k) == find_attr(
                attrs,
                k,
            ),
    decreases attrs.len(),
{
    let u = attrs.update(i, attr);
    if i > 0 {
        let d = attrs.drop_first();
        assert forall|k: int| 0 <= k < i - 1 implies (#[trigger] d[k]).key@ != attr.key@ by {
            assert(d[k] == attrs[k + 1]);
        }
        lemma_set_attr(d, attr, i - 1);
        assert(u.drop_first() =~= d.update(i - 1, attr));
        assert(attrs[0].key@ != attr.key@);
        assert forall|k: Seq<char>| k != attr.key@ implies #[trigger] find_attr(u, k) == find_attr(
            attrs,
            k,
        ) by {
            assert(find_attr(d.update(i - 1, attr), k) == find_attr(d, k));
        }
    } else {
        assert(u.drop_first() =~= attrs.drop_first());
        assert forall|k: Seq<char>| k != attr.key@ implies #[trigger] find_attr(u, k) == find_attr(
            attrs,
            k,
        ) by {
            assert(find_attr(u.drop_first(), k) == find_attr(attrs.drop_first(), k));
        }
    }
}

proof fn lemma_push_attr(attrs: Seq<Attr>, attr: Attr)
    requires
        forall|k: int| 0 <= k < attrs.len() ==> (#[trigger] attrs[k]).key@ != attr.key@,
    ensures
        find_attr(attrs.push(attr), attr.key@) == Some(attr.value),
        forall|k: Seq<char>|
            k != attr.key@ ==> #[trigger] find_attr(attrs.push(attr), k) == find_attr(attrs, k),
    decreases attrs.len(),
{
    let u = attrs.push(attr);
    if attrs.len() > 0 {
        let d = attrs.drop_first();
        assert forall|k: int| 0 <= k < d.len() implies (#[trigger] d[k]).key@ != attr.key@ by {
            assert(d[k] == attrs[k + 1]);
        }
        lemma_push_attr(d, attr);
        assert(u.drop_first() =~= d.push(attr));
        assert(attrs[0].key@ != attr.key@);
        assert forall|k: Seq<char>| k != attr.key@ implies #[trigger] find_attr(u, k) == find_attr(
            attrs,
            k,
        ) by {
            assert(find_attr(d.push(attr), k) == find_attr(d, k));
        }
    } else {
        assert(u.drop_first() =~= attrs);
        assert forall|k: Seq<char>| k != attr.key@ implies #[trigger] find_attr(u, k) == find_attr(
            attrs,
            k,
        ) by {
            assert(find_attr(u.drop_first(), k) == find_attr(attrs, k));
        }
    }
}

} // verus!
