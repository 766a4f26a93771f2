//! Stable sorting against a strict order.

use crate::text;
use vstd::prelude::*;

verus! {

/// Places `x` into `s` behind every element that `x` does not come before.
pub open spec fn insert_sorted<T>(s: Seq<T>, x: T, lt: spec_fn(T, T) -> bool) -> Seq<T>
    decreases s.len(),
{
    if s.len() == 0 {
        seq![x]
    } else if lt(x, s.last()) {
        insert_sorted(s.drop_last(), x, lt).push(s.last())
    } else {
        s.push(x)
    }
}

/// `s` in the order of `lt`, ties kept in their order in `s`.
pub open spec fn stable_sort<T>(s: Seq<T>, lt: spec_fn(T, T) -> bool) -> Seq<T>
    decreases s.len(),
{
    if s.len() == 0 {
        s
    } else {
        insert_sorted(stable_sort(s.drop_last(), lt), s.last(), lt)
    }
}

/// No element of `s` comes before one that stands ahead of it.
pub open spec fn in_order<T>(s: Seq<T>, lt: spec_fn(T, T) -> bool) -> bool {
    forall|i: int, j: int| #![trigger s[i], s[j]] 0 <= i < j < s.len() ==> !lt(s[j], s[i])
}

/// `lt` is a strict weak order: irreflexive, transitive, and "neither comes
/// before the other" is transitive.
pub open spec fn strict_weak<T>(lt: spec_fn(T, T) -> bool) -> bool {
    &&& forall|a: T| !#[trigger] lt(a, a)
    &&& forall|a: T, b: T, c: T| #[trigger] lt(a, b) && #[trigger] lt(b, c) ==> lt(a, c)
    &&& forall|a: T, b: T, c: T| #[trigger] lt(a, c) ==> lt(a, b) || #[trigger] lt(b, c)
}

/// A type with a strict order that can be decided.
pub trait Ordered: Sized {
    spec fn before(self, other: Self) -> bool;

    fn is_before(&self, other: &Self) -> (r: bool)
        ensures
            r == self.before(*other),
    ;
}

/// The order of an [`Ordered`] type as a function value.
pub open spec fn order_of<T: Ordered>() -> spec_fn(T, T) -> bool {
    |a: T, b: T| a.before(b)
}

proof fn lemma_insert_at<T>(s: Seq<T>, x: T, lt: spec_fn(T, T) -> bool, j: int)
    requires
        0 <= j <= s.len(),
        forall|k: int| j <= k < s.len() ==> lt(x, #[trigger] s[k]),
        j == 0 || !lt(x, s[j - 1]),
    ensures
        insert_sorted(s, x, lt) == s.insert(j, x),
    decreases s.len(),
{
    if s.len() == 0 {
        assert(s.insert(j, x) =~= seq![x]);
    } else if j == s.len() {
        assert(s.insert(j, x) =~= s.push(x));
    } else {
        assert(lt(x, s[s.len() - 1]));
        lemma_insert_at(s.drop_last(), x, lt, j);
        assert(s.insert(j, x) =~= s.drop_last().insert(j, x).push(s.last()));
    }
}

/// Sorts `v` stably.
pub fn sort<T: Ordered>(v: Vec<T>) -> (r: Vec<T>)
    ensures
        r@ == stable_sort(v@, order_of::<T>()),
{
    let ghost all = v@;
    let mut rest = v;
    let mut out: Vec<T> = Vec::new();
    let ghost mut done: int = 0;
    let ghost lt = order_of::<T>();
    assert(all.take(0) =~= Seq::<T>::empty());
    while rest.len() > 0
        invariant
            0 <= done <= all.len(),
            rest@ == all.skip(done),
            out@ == stable_sort(all.take(done), lt),
            lt == order_of::<T>(),
        decreases rest.len(),
    {
        let x = rest.remove(0);
        let mut j: usize = out.len();
        while j > 0 && x.is_before(&out[j - 1])
            invariant
                j <= out.len(),
                forall|k: int| j <= k < out.len() ==> lt(x, #[trigger] out@[k]),
                lt == order_of::<T>(),
            ensures
                j <= out.len(),
                forall|k: int| j <= k < out.len() ==> lt(x, #[trigger] out@[k]),
                j == 0 || !lt(x, out@[j - 1]),
            decreases j,
        {
            j = j - 1;
        }
        proof {
            lemma_insert_at(out@, x, lt, j as int);
            assert(all.take(done + 1).drop_last() =~= all.take(done));
            assert(all.take(done + 1).last() == x);
            assert(rest@ =~= all.skip(done + 1));
        }
        out.insert(j, x);
        proof {
            done = done + 1;
        }
    }
    assert(all.take(done) =~= all);
    out
}

proof fn lemma_insert_map<A, B>(
    s: Seq<A>,
    x: A,
    f: spec_fn(A) -> B,
    la: spec_fn(A, A) -> bool,
    lb: spec_fn(B, B) -> bool,
)
    requires
        forall|a: A, b: A| #[trigger] la(a, b) == lb(f(a), f(b)),
    ensures
        insert_sorted(s, x, la).map_values(f) == insert_sorted(s.map_values(f), f(x), lb),
    decreases s.len(),
{
    if s.len() == 0 {
        assert(insert_sorted(s, x, la).map_values(f) =~= seq![f(x)]);
    } else {
        assert(s.map_values(f).drop_last() =~= s.drop_last().map_values(f));
        assert(s.map_values(f).last() == f(s.last()));
        assert(la(x, s.last()) == lb(f(x), f(s.last())));
        if la(x, s.last()) {
            lemma_insert_map(s.drop_last(), x, f, la, lb);
            assert(insert_sorted(s.drop_last(), x, la).push(s.last()).map_values(f)
                =~= insert_sorted(s.drop_last(), x, la).map_values(f).push(f(s.last())));
        } else {
            assert(s.push(x).map_values(f) =~= s.map_values(f).push(f(x)));
        }
    }
}

/// Sorting commutes with a map that keeps the order.
pub proof fn lemma_sort_map<A, B>(
    s: Seq<A>,
    f: spec_fn(A) -> B,
    la: spec_fn(A, A) -> bool,
    lb: spec_fn(B, B) -> bool,
)
    requires
        forall|a: A, b: A| #[trigger] la(a, b) == lb(f(a), f(b)),
    ensures
        stable_sort(s, la).map_values(f) == stable_sort(s.map_values(f), lb),
    decreases s.len(),
{
    if s.len() == 0 {
        assert(s.map_values(f) =~= Seq::<B>::empty());
    } else {
        lemma_sort_map(s.drop_last(), f, la, lb);
        lemma_insert_map(stable_sort(s.drop_last(), la), s.last(), f, la, lb);
        assert(s.map_values(f).drop_last() =~= s.drop_last().map_values(f));
    }
}

proof fn lemma_insert_multiset<T>(s: Seq<T>, x: T, lt: spec_fn(T, T) -> bool)
    ensures
        insert_sorted(s, x, lt).len() == s.len() + 1,
        insert_sorted(s, x, lt).to_multiset() == s.to_multiset().insert(x),
    decreases s.len(),
{
    broadcast use vstd::seq_lib::group_to_multiset_ensures;
    if s.len() == 0 {
        assert(seq![x] =~= s.push(x));
    } else if lt(x, s.last()) {
        lemma_insert_multiset(s.drop_last(), x, lt);
        assert(s =~= s.drop_last().push(s.last()));
        assert(s.drop_last().to_multiset().insert(x).insert(s.last())
            =~= s.drop_last().to_multiset().insert(s.last()).insert(x));
    }
}

/// Sorting keeps every element, as often as it occurs.
pub proof fn lemma_sort_multiset<T>(s: Seq<T>, lt: spec_fn(T, T) -> bool)
    ensures
        stable_sort(s, lt).len() == s.len(),
        stable_sort(s, lt).to_multiset() == s.to_multiset(),
    decreases s.len(),
{
    broadcast use vstd::seq_lib::group_to_multiset_ensures;
    if s.len() > 0 {
        lemma_sort_multiset(s.drop_last(), lt);
        lemma_insert_multiset(stable_sort(s.drop_last(), lt), s.last(), lt);
        assert(s =~= s.drop_last().push(s.last()));
    }
}

proof fn lemma_insert_in_order<T>(s: Seq<T>, x: T, lt: spec_fn(T, T) -> bool)
    requires
        strict_weak(lt),
        in_order(s, lt),
    ensures
        in_order(insert_sorted(s, x, lt), lt),
        forall|i: int|
            0 <= i < insert_sorted(s, x, lt).len() ==> #[trigger] insert_sorted(s, x, lt)[i] == x
                || s.contains(insert_sorted(s, x, lt)[i]),
    decreases s.len(),
{
    let r = insert_sorted(s, x, lt);
    if s.len() == 0 {
        assert(r =~= seq![x]);
    } else if lt(x, s.last()) {
        let p = s.drop_last();
        lemma_insert_in_order(p, x, lt);
        let q = insert_sorted(p, x, lt);
        assert forall|i: int| 0 <= i < r.len() implies #[trigger] r[i] == x || s.contains(r[i]) by {
            if i < q.len() {
                assert(r[i] == q[i]);
                if q[i] != x {
                    let k = choose|k: int| 0 <= k < p.len() && p[k] == q[i];
                    assert(s[k] == q[i]);
                }
            } else {
                assert(r[i] == s[s.len() - 1]);
            }
        }
        assert forall|i: int, j: int| #![trigger r[i], r[j]] 0 <= i < j < r.len() implies !lt(
            r[j],
            r[i],
        ) by {
            if j < q.len() {
                assert(r[i] == q[i] && r[j] == q[j]);
            } else {
                assert(r[j] == s.last() && r[i] == q[i]);
                if q[i] == x {
                    assert(!lt(x, x));
                } else {
                    let k = choose|k: int| 0 <= k < p.len() && p[k] == q[i];
                    assert(s[k] == q[i] && s[s.len() - 1] == s.last());
                }
            }
        }
    } else {
        assert(r == s.push(x));
        assert forall|i: int, j: int| #![trigger r[i], r[j]] 0 <= i < j < r.len() implies !lt(
            r[j],
            r[i],
        ) by {
            if j < s.len() {
                assert(r[i] == s[i] && r[j] == s[j]);
            } else if i < s.len() - 1 {
                assert(s[i] == r[i] && s[s.len() - 1] == s.last());
                assert(!lt(s.last(), s[i]));
                if lt(x, s[i]) {
                    assert(lt(x, s.last()) || lt(s.last(), s[i]));
                }
            }
        }
        assert forall|i: int| 0 <= i < r.len() implies #[trigger] r[i] == x || s.contains(r[i]) by {
            if i < s.len() {
                assert(s[i] == r[i]);
            }
        }
    }
}

/// What [`sort`] returns is in order, whatever it was given.
pub proof fn lemma_sort_in_order<T>(s: Seq<T>, lt: spec_fn(T, T) -> bool)
    requires
        strict_weak(lt),
    ensures
        in_order(stable_sort(s, lt), lt),
    decreases s.len(),
{
    if s.len() > 0 {
        lemma_sort_in_order(s.drop_last(), lt);
        lemma_insert_in_order(stable_sort(s.drop_last(), lt), s.last(), lt);
    }
}

proof fn lemma_insert_agree<T>(
    s: Seq<T>,
    x: T,
    la: spec_fn(T, T) -> bool,
    lb: spec_fn(T, T) -> bool,
)
    requires
        forall|i: int| 0 <= i < s.len() ==> la(x, #[trigger] s[i]) == lb(x, s[i]),
    ensures
        insert_sorted(s, x, la) == insert_sorted(s, x, lb),
    decreases s.len(),
{
    if s.len() > 0 {
        let p = s.drop_last();
        assert forall|i: int| 0 <= i < p.len() implies la(x, #[trigger] p[i]) == lb(x, p[i]) by {
            assert(p[i] == s[i]);
        }
        lemma_insert_agree(p, x, la, lb);
        assert(s.last() == s[s.len() - 1]);
    }
}

/// Two orders that agree on the elements of a list sort it alike.
pub proof fn lemma_sort_agree<T>(
    s: Seq<T>,
    la: spec_fn(T, T) -> bool,
    lb: spec_fn(T, T) -> bool,
)
    requires
        forall|i: int, j: int|
            #![trigger s[i], s[j]]
            0 <= i < s.len() && 0 <= j < s.len() ==> la(s[i], s[j]) == lb(s[i], s[j]),
    ensures
        stable_sort(s, la) == stable_sort(s, lb),
    decreases s.len(),
{
    if s.len() > 0 {
        let p = s.drop_last();
        assert forall|i: int, j: int|
            #![trigger p[i], p[j]]
            0 <= i < p.len() && 0 <= j < p.len() implies la(p[i], p[j]) == lb(p[i], p[j]) by {
            assert(p[i] == s[i] && p[j] == s[j]);
        }
        lemma_sort_agree(p, la, lb);
        let t = stable_sort(p, la);
        let x = s.last();
        lemma_sort_inside(p, la);
        assert forall|i: int| 0 <= i < t.len() implies la(x, #[trigger] t[i]) == lb(x, t[i]) by {
            assert(p.contains(t[i]));
            let k = choose|k: int| 0 <= k < p.len() && p[k] == t[i];
            assert(s[k] == p[k]);
            assert(s[s.len() - 1] == x);
        }
        lemma_insert_agree(t, x, la, lb);
    }
}

/// What is sorted is what was given.
pub proof fn lemma_sort_inside<T>(s: Seq<T>, lt: spec_fn(T, T) -> bool)
    ensures
        stable_sort(s, lt).len() == s.len(),
        forall|i: int| 0 <= i < s.len() ==> s.contains(#[trigger] stable_sort(s, lt)[i]),
{
    let r = stable_sort(s, lt);
    lemma_sort_multiset(s, lt);
    s.to_multiset_ensures();
    r.to_multiset_ensures();
    assert forall|i: int| 0 <= i < s.len() implies s.contains(#[trigger] r[i]) by {
        assert(r.contains(r[i]));
        assert(r.to_multiset().count(r[i]) > 0);
        assert(s.to_multiset().count(r[i]) > 0);
    }
}

/// Strings in the order of their bytes.
pub open spec fn text_order() -> spec_fn(Seq<char>, Seq<char>) -> bool {
    |a: Seq<char>, b: Seq<char>| text::str_lt(a, b)
}

impl Ordered for String {
    open spec fn before(self, other: Self) -> bool {
        text::str_lt(self@, other@)
    }

    fn is_before(&self, other: &Self) -> (r: bool) {
        text::less(self.as_str(), other.as_str())
    }
}

/// The strings in the order of their bytes.
pub fn sort_texts(v: Vec<String>) -> (r: Vec<String>)
    ensures
        text::views(r@) == stable_sort(text::views(v@), text_order()),
{
    let ghost given = v@;
    let out = sort(v);
    proof {
        let f = |s: String| s@;
        assert(text::views(given) =~= given.map_values(f));
        lemma_sort_map(given, f, order_of::<String>(), text_order());
        assert(text::views(out@) =~= out@.map_values(f));
    }
    out
}

/// Whether position `a` comes before position `b`: the larger key first, then
/// by name.
pub open spec fn ranks_before(keys: Seq<i64>, names: Seq<Seq<char>>) -> spec_fn(
    usize,
    usize,
) -> bool {
    |a: usize, b: usize|
        keys[a as int] > keys[b as int] || (keys[a as int] == keys[b as int] && text::str_lt(
            names[a as int],
            names[b as int],
        ))
}

/// The positions from 0 up to `n`.
pub open spec fn positions_up_to(n: nat) -> Seq<usize> {
    Seq::new(n, |i: int| i as usize)
}

/// The positions of a list in the order of falling keys, ties by name and then
/// as they stand.
pub open spec fn ranked(keys: Seq<i64>, names: Seq<Seq<char>>) -> Seq<usize> {
    stable_sort(positions_up_to(keys.len()), ranks_before(keys, names))
}

struct RankSlot {
    key: i64,
    name: String,
    at: usize,
}

impl Ordered for RankSlot {
    closed spec fn before(self, other: Self) -> bool {
        self.key > other.key || (self.key == other.key && text::str_lt(self.name@, other.name@))
    }

    fn is_before(&self, other: &Self) -> (r: bool) {
        self.key > other.key || (self.key == other.key && text::less(
            self.name.as_str(),
            other.name.as_str(),
        ))
    }
}

/// The positions of a list in the order of falling keys. A key stands for an
/// amount that is compared outside, such as a cost.
pub fn rank(keys: &[i64], names: &[String]) -> (r: Vec<usize>)
    requires
        keys@.len() == names@.len(),
    ensures
        r@ == ranked(keys@, text::views(names@)),
        r@.len() == keys@.len(),
        forall|i: int| 0 <= i < r@.len() ==> (#[trigger] r@[i]) < keys@.len(),
{
    let n: usize = keys.len();
    let ghost nv = text::views(names@);
    let ghost all = positions_up_to(n as nat);
    let ghost slot = |at: usize| RankSlot { key: keys@[at as int], name: names@[at as int], at };
    let mut slots: Vec<RankSlot> = Vec::new();
    let mut i: usize = 0;
    while i < n
        invariant
            i <= n,
            n == keys@.len(),
            n == names@.len(),
            slots@.len() == i,
            forall|k: int|
                0 <= k < i ==> (#[trigger] slots@[k]).at == k && slots@[k].key == keys@[k]
                    && slots@[k].name == names@[k],
        decreases n - i,
    {
        slots.push(RankSlot { key: keys[i], name: names[i].clone(), at: i });
        i = i + 1;
    }
    let ghost given = slots@;
    let sorted = sort(slots);
    let mut out: Vec<usize> = Vec::new();
    let mut j: usize = 0;
    while j < sorted.len()
        invariant
            j <= sorted@.len(),
            out@.len() == j,
            forall|k: int| 0 <= k < j ==> #[trigger] out@[k] == sorted@[k].at,
        decreases sorted@.len() - j,
    {
        out.push(sorted[j].at);
        j = j + 1;
    }
    proof {
        let lt = ranks_before(keys@, nv);
        let inner = |a: usize, b: usize| slot(a).before(slot(b));
        assert(given =~= all.map_values(slot));
        lemma_sort_map(all, slot, inner, order_of::<RankSlot>());
        lemma_sort_same(all, lt, inner, n as int);
        let target = stable_sort(all, lt);
        assert(sorted@ == target.map_values(slot));
        assert(out@ =~= target);
        lemma_sort_inside(all, lt);
        assert forall|i: int| 0 <= i < out@.len() implies (#[trigger] out@[i]) < keys@.len() by {
            assert(all.contains(out@[i]));
        }
    }
    out
}

/// The items in the order of falling keys, ties by name and then as they stand.
pub open spec fn in_rank<T>(items: Seq<T>, keys: Seq<i64>, names: Seq<Seq<char>>) -> Seq<T> {
    ranked(keys, names).map_values(|i: usize| items[i as int])
}

/// Names for `n` items that tell none of them apart.
pub open spec fn unnamed(n: nat) -> Seq<Seq<char>> {
    Seq::new(n, |i: int| Seq::<char>::empty())
}

struct ItemSlot<T> {
    key: i64,
    name: String,
    item: T,
}

impl<T> Ordered for ItemSlot<T> {
    closed spec fn before(self, other: Self) -> bool {
        self.key > other.key || (self.key == other.key && text::str_lt(self.name@, other.name@))
    }

    fn is_before(&self, other: &Self) -> (r: bool) {
        self.key > other.key || (self.key == other.key && text::less(
            self.name.as_str(),
            other.name.as_str(),
        ))
    }
}

/// Puts the items into the order of falling keys, ties by name and then as they
/// stand.
pub fn arrange<T>(items: Vec<T>, keys: &[i64], names: &[String]) -> (r: Vec<T>)
    requires
        keys@.len() == items@.len(),
        names@.len() == items@.len(),
    ensures
        r@ == in_rank(items@, keys@, text::views(names@)),
{
    let n: usize = keys.len();
    let ghost given = items@;
    let ghost nv = text::views(names@);
    let ghost all = positions_up_to(n as nat);
    let ghost slot = |at: usize|
        ItemSlot { key: keys@[at as int], name: names@[at as int], item: given[at as int] };
    let mut rest = items;
    let mut slots: Vec<ItemSlot<T>> = Vec::new();
    let mut i: usize = 0;
    assert(given.skip(0) =~= given);
    while i < n
        invariant
            i <= n,
            n == keys@.len(),
            n == names@.len(),
            n == given.len(),
            rest@ == given.skip(i as int),
            slots@.len() == i,
            forall|k: int|
                0 <= k < i ==> (#[trigger] slots@[k]).item == given[k] && slots@[k].key == keys@[k]
                    && slots@[k].name == names@[k],
        decreases n - i,
    {
        let item = rest.remove(0);
        assert(rest@ =~= given.skip(i + 1));
        slots.push(ItemSlot { key: keys[i], name: names[i].clone(), item });
        i = i + 1;
    }
    let ghost before = slots@;
    let mut sorted = sort(slots);
    let ghost done = sorted@;
    let mut out: Vec<T> = Vec::new();
    let ghost mut j: int = 0;
    assert(done.skip(0) =~= done);
    while sorted.len() > 0
        invariant
            0 <= j <= done.len(),
            sorted@ == done.skip(j),
            out@.len() == j,
            forall|k: int| 0 <= k < j ==> #[trigger] out@[k] == done[k].item,
        decreases sorted@.len(),
    {
        let s = sorted.remove(0);
        proof {
            assert(s == done[j]);
            assert(sorted@ =~= done.skip(j + 1));
            j = j + 1;
        }
        out.push(s.item);
    }
    proof {
        let lt = ranks_before(keys@, nv);
        let inner = |a: usize, b: usize| slot(a).before(slot(b));
        assert(before =~= all.map_values(slot));
        lemma_sort_map(all, slot, inner, order_of::<ItemSlot<T>>());
        lemma_sort_same(all, lt, inner, n as int);
        assert(done == stable_sort(all, lt).map_values(slot));
        assert(out@ =~= in_rank(given, keys@, nv));
    }
    out
}

/// Puts the items into the order of falling keys, ties as they stand.
pub fn arrange_by_key<T>(items: Vec<T>, keys: &[i64]) -> (r: Vec<T>)
    requires
        keys@.len() == items@.len(),
    ensures
        r@ == in_rank(items@, keys@, unnamed(items@.len())),
{
    let n: usize = items.len();
    let mut names: Vec<String> = Vec::new();
    while names.len() < n
        invariant
            names@.len() <= n,
            forall|k: int| 0 <= k < names@.len() ==> (#[trigger] names@[k])@ == Seq::<char>::empty(),
        decreases n - names@.len(),
    {
        let name = String::new();
        assert(name@ =~= Seq::<char>::empty());
        names.push(name);
    }
    assert(text::views(names@) =~= unnamed(n as nat));
    arrange(items, keys, names.as_slice())
}

/// Whether a list of positions is in the order of `lt`, those that it leaves
/// open ascending.
spec fn in_stable_order(s: Seq<usize>, lt: spec_fn(usize, usize) -> bool) -> bool {
    forall|i: int, j: int|
        #![trigger s[i], s[j]]
        0 <= i < j < s.len() ==> !lt(s[j], s[i]) && (lt(s[i], s[j]) || s[i] < s[j])
}

proof fn lemma_insert_stable(s: Seq<usize>, x: usize, lt: spec_fn(usize, usize) -> bool)
    requires
        strict_weak(lt),
        in_stable_order(s, lt),
        forall|i: int| 0 <= i < s.len() ==> (#[trigger] s[i]) < x,
    ensures
        in_stable_order(insert_sorted(s, x, lt), lt),
        insert_sorted(s, x, lt).len() == s.len() + 1,
        forall|i: int|
            0 <= i <= s.len() ==> (#[trigger] insert_sorted(s, x, lt)[i]) == x || s.contains(
                insert_sorted(s, x, lt)[i],
            ),
    decreases s.len(),
{
    let r = insert_sorted(s, x, lt);
    if s.len() > 0 {
        let d = s.drop_last();
        let last = s.last();
        assert(s[s.len() - 1] == last);
        if lt(x, last) {
            assert forall|i: int, j: int|
                #![trigger d[i], d[j]]
                0 <= i < j < d.len() implies !lt(d[j], d[i]) && (lt(d[i], d[j]) || d[i] < d[j]) by {
                assert(d[i] == s[i] && d[j] == s[j]);
            }
            assert forall|i: int| 0 <= i < d.len() implies (#[trigger] d[i]) < x by {
                assert(d[i] == s[i]);
            }
            lemma_insert_stable(d, x, lt);
            let t = insert_sorted(d, x, lt);
            assert(r == t.push(last));
            assert forall|i: int| 0 <= i < t.len() implies !lt(last, #[trigger] t[i]) && (lt(
                t[i],
                last,
            ) || t[i] < last) by {
                if t[i] == x {
                    assert(!lt(x, x));
                } else {
                    let k = choose|k: int| 0 <= k < d.len() && d[k] == t[i];
                    assert(s[k] == t[i]);
                }
            }
            assert forall|i: int, j: int|
                #![trigger r[i], r[j]]
                0 <= i < j < r.len() implies !lt(r[j], r[i]) && (lt(r[i], r[j]) || r[i] < r[j]) by {
                if j < t.len() {
                    assert(r[i] == t[i] && r[j] == t[j]);
                } else {
                    assert(r[i] == t[i]);
                }
            }
            assert forall|i: int| 0 <= i <= s.len() implies (#[trigger] r[i]) == x || s.contains(
                r[i],
            ) by {
                if i < t.len() {
                    assert(r[i] == t[i]);
                    if t[i] != x {
                        let k = choose|k: int| 0 <= k < d.len() && d[k] == t[i];
                        assert(s[k] == t[i]);
                    }
                }
            }
        } else {
            assert(r == s.push(x));
            assert forall|i: int, j: int|
                #![trigger r[i], r[j]]
                0 <= i < j < r.len() implies !lt(r[j], r[i]) && (lt(r[i], r[j]) || r[i] < r[j]) by {
                if j < s.len() {
                    assert(r[i] == s[i] && r[j] == s[j]);
                } else {
                    assert(r[i] == s[i]);
                    if i < s.len() - 1 {
                        assert(!lt(last, s[i]));
                        if lt(x, s[i]) {
                            assert(lt(x, last) || lt(last, s[i]));
                        }
                    }
                }
            }
            assert forall|i: int| 0 <= i <= s.len() implies (#[trigger] r[i]) == x || s.contains(
                r[i],
            ) by {
                if i < s.len() {
                    assert(r[i] == s[i]);
                }
            }
        }
    }
}

proof fn lemma_positions_sorted(n: nat, lt: spec_fn(usize, usize) -> bool)
    requires
        n <= usize::MAX,
        strict_weak(lt),
    ensures
        in_stable_order(stable_sort(positions_up_to(n), lt), lt),
    decreases n,
{
    let all = positions_up_to(n);
    if n > 0 {
        let m = (n - 1) as nat;
        assert(all.drop_last() =~= positions_up_to(m));
        lemma_positions_sorted(m, lt);
        let t = stable_sort(positions_up_to(m), lt);
        lemma_sort_inside(positions_up_to(m), lt);
        assert forall|i: int| 0 <= i < t.len() implies (#[trigger] t[i]) < m by {
            assert(positions_up_to(m).contains(t[i]));
        }
        lemma_insert_stable(t, m as usize, lt);
    }
}

/// In a ranking the keys fall; where they are level the names rise; where these
/// are level too the positions do.
pub proof fn lemma_ranked(keys: Seq<i64>, names: Seq<Seq<char>>, i: int, j: int)
    requires
        keys.len() <= usize::MAX,
        0 <= i < j < keys.len(),
    ensures
        ({
            let a = ranked(keys, names)[i];
            let b = ranked(keys, names)[j];
            let x = names[a as int];
            let y = names[b as int];
            &&& keys[a as int] >= keys[b as int]
            &&& keys[a as int] == keys[b as int] ==> x == y || text::str_lt(x, y)
            &&& keys[a as int] == keys[b as int] && x == y ==> a < b
        }),
{
    let lt = ranks_before(keys, names);
    assert(strict_weak(lt)) by {
        assert forall|a: usize| !#[trigger] lt(a, a) by {
            text::lemma_str_lt(names[a as int], names[a as int], names[a as int]);
        }
        assert forall|a: usize, b: usize, c: usize| #[trigger] lt(a, b) && #[trigger] lt(
            b,
            c,
        ) implies lt(a, c) by {
            text::lemma_str_lt(names[a as int], names[b as int], names[c as int]);
        }
        assert forall|a: usize, b: usize, c: usize| #[trigger] lt(a, c) implies lt(a, b)
            || #[trigger] lt(b, c) by {
            text::lemma_str_lt(names[a as int], names[b as int], names[c as int]);
            text::lemma_str_lt(names[a as int], names[c as int], names[b as int]);
            text::lemma_str_lt(names[b as int], names[a as int], names[c as int]);
        }
    }
    lemma_sort_inside(positions_up_to(keys.len()), lt);
    lemma_positions_sorted(keys.len(), lt);
    let r = ranked(keys, names);
    let x = names[r[i] as int];
    let y = names[r[j] as int];
    assert(!lt(r[j], r[i]) && (lt(r[i], r[j]) || r[i] < r[j]));
    text::lemma_str_lt(x, y, x);
    text::lemma_str_lt(y, x, y);
}

proof fn lemma_insert_mapped<T, U>(
    s: Seq<T>,
    x: T,
    f: spec_fn(T) -> U,
    lt: spec_fn(T, T) -> bool,
)
    ensures
        insert_sorted(s, x, lt).map_values(f).to_multiset() == s.map_values(f).to_multiset().insert(
            f(x),
        ),
    decreases s.len(),
{
    broadcast use vstd::seq_lib::group_to_multiset_ensures;

    let m = s.map_values(f);
    if s.len() > 0 && lt(x, s.last()) {
        let d = s.drop_last();
        let t = insert_sorted(d, x, lt);
        lemma_insert_mapped(d, x, f, lt);
        assert(m =~= d.map_values(f).push(f(s.last())));
        assert(insert_sorted(s, x, lt).map_values(f) =~= t.map_values(f).push(f(s.last())));
        assert(d.map_values(f).to_multiset().insert(f(x)).insert(f(s.last()))
            =~= d.map_values(f).to_multiset().insert(f(s.last())).insert(f(x)));
    } else {
        assert(insert_sorted(s, x, lt).map_values(f) =~= m.push(f(x)));
    }
}

proof fn lemma_sort_mapped<T, U>(s: Seq<T>, f: spec_fn(T) -> U, lt: spec_fn(T, T) -> bool)
    ensures
        stable_sort(s, lt).map_values(f).to_multiset() == s.map_values(f).to_multiset(),
    decreases s.len(),
{
    broadcast use vstd::seq_lib::group_to_multiset_ensures;

    if s.len() > 0 {
        let d = s.drop_last();
        lemma_sort_mapped(d, f, lt);
        lemma_insert_mapped(stable_sort(d, lt), s.last(), f, lt);
        assert(s.map_values(f) =~= d.map_values(f).push(f(s.last())));
    }
}

/// Ranking keeps every item, as often as it occurs.
pub proof fn lemma_in_rank<T>(items: Seq<T>, keys: Seq<i64>, names: Seq<Seq<char>>)
    requires
        items.len() <= usize::MAX,
        keys.len() == items.len(),
    ensures
        in_rank(items, keys, names).len() == items.len(),
        in_rank(items, keys, names).to_multiset() == items.to_multiset(),
{
    let all = positions_up_to(keys.len());
    let f = |i: usize| items[i as int];
    lemma_sort_multiset(all, ranks_before(keys, names));
    lemma_sort_mapped(all, f, ranks_before(keys, names));
    assert(all.map_values(f) =~= items);
}

/// Two orders that agree on the elements sort them alike.
proof fn lemma_sort_same(
    s: Seq<usize>,
    la: spec_fn(usize, usize) -> bool,
    lb: spec_fn(usize, usize) -> bool,
    n: int,
)
    requires
        forall|i: int| 0 <= i < s.len() ==> (#[trigger] s[i]) < n,
        forall|a: usize, b: usize| a < n && b < n ==> #[trigger] la(a, b) == lb(a, b),
    ensures
        stable_sort(s, la) == stable_sort(s, lb),
    decreases s.len(),
{
    if s.len() > 0 {
        let d = s.drop_last();
        lemma_sort_same(d, la, lb, n);
        lemma_sort_inside(d, la);
        let r = stable_sort(d, la);
        assert forall|i: int| 0 <= i < r.len() implies (#[trigger] r[i]) < n by {
            assert(d.contains(r[i]));
            let k = choose|k: int| 0 <= k < d.len() && d[k] == r[i];
            assert(s[k] == r[i]);
        }
        assert(s[s.len() - 1] < n);
        lemma_insert_same(r, s.last(), la, lb, n);
    }
}

proof fn lemma_insert_same(
    s: Seq<usize>,
    x: usize,
    la: spec_fn(usize, usize) -> bool,
    lb: spec_fn(usize, usize) -> bool,
    n: int,
)
    requires
        x < n,
        forall|i: int| 0 <= i < s.len() ==> (#[trigger] s[i]) < n,
        forall|a: usize, b: usize| a < n && b < n ==> #[trigger] la(a, b) == lb(a, b),
    ensures
        insert_sorted(s, x, la) == insert_sorted(s, x, lb),
    decreases s.len(),
{
    if s.len() > 0 {
        assert(s[s.len() - 1] < n);
        assert(la(x, s.last()) == lb(x, s.last()));
        lemma_insert_same(s.drop_last(), x, la, lb, n);
    }
}

} // verus!
