//! What a span says, read off its attributes.

use crate::span_tree;
use crate::span_tree::{Attr, AttrValue, SpanNode};
use vstd::prelude::*;

verus! {

/// Whether the first attribute `key` of the span has the value.
pub open spec fn carries(node: SpanNode, key: Seq<char>, value: AttrValue) -> bool {
    exists|i: int|
        0 <= i < node.attributes@.len() && (#[trigger] node.attributes@[i]).key@ == key
            && node.attributes@[i].value == value && forall|j: int|
            0 <= j < i ==> (#[trigger] node.attributes@[j]).key@ != key
}

/// Whether the span has no attribute `key`.
pub open spec fn lacks(node: SpanNode, key: Seq<char>) -> bool {
    forall|j: int|
        0 <= j < node.attributes@.len() ==> (#[trigger] node.attributes@[j]).key@ != key
}

/// Whether the span counts `v` under `key`: 0 where it gives no number.
pub open spec fn counts(node: SpanNode, key: Seq<char>, v: int) -> bool {
    ||| i64::MIN <= v <= i64::MAX && carries(node, key, AttrValue::Int(v as i64))
    ||| v == 0 && forall|x: i64| !#[trigger] carries(node, key, AttrValue::Int(x))
}

/// Whether the span says `s` under `key`: nothing where it gives no text.
pub open spec fn says(node: SpanNode, key: Seq<char>, s: Option<Seq<char>>) -> bool {
    match s {
        Some(s) => exists|x: String| x@ == s && #[trigger] carries(node, key, AttrValue::Str(x)),
        None => forall|x: String| !#[trigger] carries(node, key, AttrValue::Str(x)),
    }
}

proof fn lemma_find_first(attrs: Seq<Attr>, key: Seq<char>, i: int)
    requires
        0 <= i <= attrs.len(),
        forall|j: int| 0 <= j < i ==> (#[trigger] attrs[j]).key@ != key,
        i < attrs.len() ==> attrs[i].key@ == key,
    ensures
        i < attrs.len() ==> span_tree::find_attr(attrs, key) == Some(attrs[i].value),
        i == attrs.len() ==> span_tree::find_attr(attrs, key) is None,
    decreases attrs.len(),
{
    if attrs.len() > 0 && i > 0 {
        let rest = attrs.drop_first();
        assert(attrs[0].key@ != key);
        assert forall|j: int| 0 <= j < i - 1 implies (#[trigger] rest[j]).key@ != key by {
            assert(rest[j] == attrs[j + 1]);
        }
        lemma_find_first(rest, key, i - 1);
    }
}

proof fn lemma_found_first(attrs: Seq<Attr>, key: Seq<char>) -> (i: int)
    ensures
        0 <= i <= attrs.len(),
        forall|j: int| 0 <= j < i ==> (#[trigger] attrs[j]).key@ != key,
        i < attrs.len() ==> attrs[i].key@ == key,
    decreases attrs.len(),
{
    if attrs.len() == 0 || attrs[0].key@ == key {
        0
    } else {
        let rest = attrs.drop_first();
        let i = lemma_found_first(rest, key);
        assert forall|j: int| 0 <= j < i + 1 implies (#[trigger] attrs[j]).key@ != key by {
            if j > 0 {
                assert(rest[j - 1] == attrs[j]);
            }
        }
        if i < rest.len() {
            assert(rest[i] == attrs[i + 1]);
        }
        i + 1
    }
}

/// What a look-up finds is the first attribute under the key.
pub proof fn lemma_carries(node: SpanNode, key: Seq<char>, value: AttrValue)
    ensures
        carries(node, key, value) <==> span_tree::find_attr(node.attributes@, key) == Some(value),
        lacks(node, key) <==> span_tree::find_attr(node.attributes@, key) is None,
{
    let attrs = node.attributes@;
    let i = lemma_found_first(attrs, key);
    lemma_find_first(attrs, key, i);
    if carries(node, key, value) {
        let k = choose|k: int|
            0 <= k < attrs.len() && (#[trigger] attrs[k]).key@ == key && attrs[k].value == value
                && forall|j: int| 0 <= j < k ==> (#[trigger] attrs[j]).key@ != key;
        lemma_find_first(attrs, key, k);
    }
}

/// A count is what the span gives as a number, or 0.
pub proof fn lemma_counts(node: SpanNode, key: Seq<char>, v: int)
    ensures
        counts(node, key, v) <==> v == match span_tree::int_attr(node, key) {
            Some(n) => n as int,
            None => 0,
        },
{
    if i64::MIN <= v <= i64::MAX {
        lemma_carries(node, key, AttrValue::Int(v as i64));
    }
    match span_tree::int_attr(node, key) {
        Some(n) => {
            lemma_carries(node, key, AttrValue::Int(n));
        },
        None => {
            assert forall|x: i64| !#[trigger] carries(node, key, AttrValue::Int(x)) by {
                lemma_carries(node, key, AttrValue::Int(x));
            }
        },
    }
}

/// What a span says is what it gives as a text.
pub proof fn lemma_says(node: SpanNode, key: Seq<char>, s: Option<Seq<char>>)
    ensures
        says(node, key, s) <==> span_tree::string_attr(node, key) == s,
{
    assert forall|x: String| #[trigger] carries(node, key, AttrValue::Str(x)) implies
        span_tree::find_attr(node.attributes@, key) == Some(AttrValue::Str(x)) by {
        lemma_carries(node, key, AttrValue::Str(x));
    }
    match span_tree::find_attr(node.attributes@, key) {
        Some(AttrValue::Str(x)) => {
            lemma_carries(node, key, AttrValue::Str(x));
        },
        _ => {},
    }
}

/// Whether the spans lead from the root down, each a child of the one before.
pub open spec fn is_way(way: Seq<SpanNode>, root: SpanNode) -> bool {
    &&& way.len() > 0
    &&& way[0] == root
    &&& forall|k: int|
        0 < k < way.len() ==> way[k - 1].children@.contains(#[trigger] way[k])
}

/// A way goes on with any child of the span that it ends at.
pub proof fn lemma_way_on(way: Seq<SpanNode>, root: SpanNode, i: int)
    requires
        is_way(way, root),
        0 <= i < way.last().children@.len(),
    ensures
        is_way(way.push(way.last().children@[i]), root),
        way.push(way.last().children@[i]).last() == way.last().children@[i],
{
    let w = way.push(way.last().children@[i]);
    assert forall|k: int| 0 < k < w.len() implies w[k - 1].children@.contains(#[trigger] w[k]) by {
        if k < way.len() {
            assert(w[k] == way[k]);
        } else {
            assert(w[k - 1] == way.last());
        }
    }
}

/// Whether the span is the root or below it.
pub open spec fn reached(span: SpanNode, root: SpanNode) -> bool {
    exists|way: Seq<SpanNode>| #[trigger] is_way(way, root) && way.last() == span
}

/// The root is reached.
pub proof fn lemma_reached_root(root: SpanNode)
    ensures
        reached(root, root),
{
    let way = seq![root];
    assert(is_way(way, root) && way.last() == root);
}

/// Where a span is reached, so are its children.
pub proof fn lemma_reached_on(span: SpanNode, root: SpanNode, i: int)
    requires
        reached(span, root),
        0 <= i < span.children@.len(),
    ensures
        reached(span.children@[i], root),
{
    let way = choose|way: Seq<SpanNode>| #[trigger] is_way(way, root) && way.last() == span;
    lemma_way_on(way, root, i);
}

} // verus!
