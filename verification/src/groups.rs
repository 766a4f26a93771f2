//! Grouping of positions by key, in the order in which the keys are first seen.

use crate::outside;
use vstd::prelude::*;

verus! {

/// The positions of the keys that are `key`, ascending.
pub open spec fn positions(keys: Seq<Seq<char>>, key: Seq<char>) -> Seq<usize>
    decreases keys.len(),
{
    if keys.len() == 0 {
        Seq::empty()
    } else {
        let rest = positions(keys.drop_last(), key);
        if keys.last() == key {
            rest.push((keys.len() - 1) as usize)
        } else {
            rest
        }
    }
}

/// The distinct keys in the order in which they are first seen.
pub open spec fn first_seen(keys: Seq<Seq<char>>) -> Seq<Seq<char>>
    decreases keys.len(),
{
    if keys.len() == 0 {
        Seq::empty()
    } else {
        let rest = first_seen(keys.drop_last());
        if rest.contains(keys.last()) {
            rest
        } else {
            rest.push(keys.last())
        }
    }
}

/// Each distinct key, in first-seen order, with its positions.
pub open spec fn groups_of(keys: Seq<Seq<char>>) -> Seq<(Seq<char>, Seq<usize>)> {
    first_seen(keys).map_values(|k: Seq<char>| (k, positions(keys, k)))
}

/// A key with the positions at which it occurs.
pub struct Group {
    pub key: String,
    pub members: Vec<usize>,
}

/// The groups as character sequences and position sequences.
pub open spec fn group_views(g: Seq<Group>) -> Seq<(Seq<char>, Seq<usize>)> {
    g.map_values(|x: Group| (x.key@, x.members@))
}

/// A key is among the first-seen keys if and only if it occurs, and no key is
/// listed twice.
pub proof fn lemma_first_seen(keys: Seq<Seq<char>>)
    ensures
        first_seen(keys).no_duplicates(),
        forall|k: Seq<char>| #[trigger] first_seen(keys).contains(k) <==> keys.contains(k),
    decreases keys.len(),
{
    if keys.len() > 0 {
        let p = keys.drop_last();
        let rest = first_seen(p);
        lemma_first_seen(p);
        assert forall|k: Seq<char>| #[trigger] first_seen(keys).contains(k) <==> keys.contains(
            k,
        ) by {
            if keys.contains(k) {
                let i = choose|i: int| 0 <= i < keys.len() && keys[i] == k;
                if i < p.len() {
                    assert(p[i] == k);
                    assert(rest.contains(k));
                    let j = choose|j: int| 0 <= j < rest.len() && rest[j] == k;
                    assert(first_seen(keys)[j] == k);
                } else if !rest.contains(k) {
                    assert(first_seen(keys)[rest.len() as int] == k);
                }
            }
            if first_seen(keys).contains(k) {
                let j = choose|j: int| 0 <= j < first_seen(keys).len() && first_seen(keys)[j] == k;
                if j < rest.len() {
                    assert(rest[j] == k);
                    assert(rest.contains(k));
                    let i = choose|i: int| 0 <= i < p.len() && p[i] == k;
                    assert(keys[i] == k);
                } else {
                    assert(keys[keys.len() - 1] == k);
                }
            }
        }
    }
}

/// The positions of a key are exactly the places where it stands, ascending.
pub proof fn lemma_positions(keys: Seq<Seq<char>>, key: Seq<char>)
    requires
        keys.len() <= usize::MAX,
    ensures
        forall|j: int|
            0 <= j < positions(keys, key).len() ==> (#[trigger] positions(keys, key)[j])
                < keys.len() && keys[positions(keys, key)[j] as int] == key,
        forall|i: int, j: int|
            0 <= i < j < positions(keys, key).len() ==> positions(keys, key)[i] < positions(
                keys,
                key,
            )[j],
        forall|i: int|
            0 <= i < keys.len() && #[trigger] keys[i] == key ==> positions(keys, key).contains(
                i as usize,
            ),
        positions(keys, key).len() <= keys.len(),
        positions(keys, key).len() > 0 <==> keys.contains(key),
    decreases keys.len(),
{
    if keys.len() > 0 {
        let p = keys.drop_last();
        lemma_positions(p, key);
        let r = positions(p, key);
        let s = positions(keys, key);
        assert forall|j: int| 0 <= j < s.len() implies (#[trigger] s[j]) < keys.len()
            && keys[s[j] as int] == key by {
            if j < r.len() {
                assert(s[j] == r[j]);
                assert(p[r[j] as int] == key);
            }
        }
        assert forall|i: int| 0 <= i < keys.len() && #[trigger] keys[i] == key implies s.contains(
            i as usize,
        ) by {
            if i < p.len() {
                assert(p[i] == key);
                assert(r.contains(i as usize));
                let j = choose|j: int| 0 <= j < r.len() && r[j] == i as usize;
                assert(s[j] == i as usize);
            } else {
                assert(s[r.len() as int] == i as usize);
            }
        }
        if keys.contains(key) {
            let i = choose|i: int| 0 <= i < keys.len() && keys[i] == key;
            assert(s.contains(i as usize));
        }
        if s.len() > 0 {
            assert(s[0] < keys.len() && keys[s[0] as int] == key);
        }
    }
}

proof fn lemma_entry_position(entries: Seq<(Seq<char>, Seq<usize>)>, key: Seq<char>)
    ensures
        0 <= outside::entry_position(entries, key) <= entries.len(),
        outside::entry_position(entries, key) < entries.len() ==> entries[outside::entry_position(
            entries,
            key,
        )].0 == key,
        forall|j: int|
            0 <= j < outside::entry_position(entries, key) ==> (#[trigger] entries[j]).0 != key,
    decreases entries.len(),
{
    if entries.len() > 0 && entries[0].0 != key {
        let d = entries.drop_first();
        lemma_entry_position(d, key);
        assert forall|j: int|
            0 <= j < outside::entry_position(entries, key) implies (#[trigger] entries[j]).0
            != key by {
            if j > 0 {
                assert(d[j - 1] == entries[j]);
            }
        }
    }
}

proof fn lemma_groups_step(keys: Seq<Seq<char>>, key: Seq<char>)
    requires
        keys.len() < usize::MAX,
    ensures
        groups_of(keys.push(key)) == outside::with_item(groups_of(keys), key, keys.len() as usize),
{
    let g = groups_of(keys);
    let next = keys.push(key);
    let fs = first_seen(keys);
    assert(next.drop_last() =~= keys);
    lemma_first_seen(keys);
    lemma_entry_position(g, key);
    let at = outside::entry_position(g, key);
    assert forall|k: Seq<char>| positions(next, k) == (if k == key {
        #[trigger] positions(keys, k).push(keys.len() as usize)
    } else {
        positions(keys, k)
    }) by {
        assert(next.drop_last() =~= keys);
    }
    if fs.contains(key) {
        let j = choose|j: int| 0 <= j < fs.len() && fs[j] == key;
        assert(g[j].0 == key);
        assert(at <= j);
        assert(fs[at] == key);
        assert(groups_of(next) =~= outside::with_item(g, key, keys.len() as usize)) by {
            assert(first_seen(next) == fs);
            assert forall|i: int| 0 <= i < fs.len() implies #[trigger] groups_of(next)[i]
                == outside::with_item(g, key, keys.len() as usize)[i] by {
                assert(positions(next, fs[i]) == if fs[i] == key {
                    positions(keys, fs[i]).push(keys.len() as usize)
                } else {
                    positions(keys, fs[i])
                });
                if i != at {
                    assert(fs[i] != fs[at]);
                }
            }
        }
    } else {
        if at < g.len() {
            assert(fs[at] == key);
        }
        lemma_positions(keys, key);
        assert(!keys.contains(key));
        assert(positions(keys, key) =~= Seq::<usize>::empty());
        assert(groups_of(next) =~= outside::with_item(g, key, keys.len() as usize)) by {
            assert(first_seen(next) == fs.push(key));
            assert(positions(next, key) =~= seq![keys.len() as usize]);
            assert forall|i: int| 0 <= i < fs.len() implies #[trigger] groups_of(next)[i] == g[i] by {
                assert(first_seen(next)[i] == fs[i]);
                assert(fs[i] != key);
                assert(positions(next, fs[i]) == positions(keys, fs[i]));
            }
        }
    }
}

/// The distinct strings in the order in which they are first seen.
pub fn distinct(v: &Vec<String>) -> (r: Vec<String>)
    ensures
        crate::text::views(r@) == first_seen(crate::text::views(v@)),
{
    let ghost all = crate::text::views(v@);
    let mut out: Vec<String> = Vec::new();
    let mut i: usize = 0;
    assert(all.take(0) =~= Seq::<Seq<char>>::empty());
    assert(crate::text::views(out@) =~= Seq::<Seq<char>>::empty());
    while i < v.len()
        invariant
            i <= v@.len(),
            all == crate::text::views(v@),
            crate::text::views(out@) == first_seen(all.take(i as int)),
        decreases v@.len() - i,
    {
        assert(all.take(i + 1).drop_last() =~= all.take(i as int));
        assert(all.take(i + 1).last() == v@[i as int]@);
        let ghost before = crate::text::views(out@);
        if !holds(&out, v[i].as_str()) {
            out.push(v[i].clone());
            assert(crate::text::views(out@) =~= before.push(v@[i as int]@));
        }
        i = i + 1;
    }
    assert(all.take(i as int) =~= all);
    out
}

/// Whether the string is in the list.
pub fn holds(v: &Vec<String>, s: &str) -> (r: bool)
    ensures
        r == crate::text::views(v@).contains(s@),
{
    let ghost all = crate::text::views(v@);
    let mut i: usize = 0;
    while i < v.len()
        invariant
            i <= v@.len(),
            all == crate::text::views(v@),
            forall|k: int| 0 <= k < i ==> #[trigger] all[k] != s@,
        decreases v@.len() - i,
    {
        assert(all[i as int] == v@[i as int]@);
        if crate::text::same(v[i].as_str(), s) {
            return true;
        }
        i = i + 1;
    }
    false
}

/// The positions of the keys, grouped by key in first-seen order.
pub fn group_by_key(keys: &Vec<String>) -> (r: Vec<Group>)
    ensures
        group_views(r@) == groups_of(crate::text::views(keys@)),
{
    let mut map = outside::index_map_new();
    let ghost all = crate::text::views(keys@);
    let mut i: usize = 0;
    assert(groups_of(all.take(0)) =~= Seq::<(Seq<char>, Seq<usize>)>::empty());
    while i < keys.len()
        invariant
            i <= keys@.len(),
            all == crate::text::views(keys@),
            outside::index_entries(map) == groups_of(all.take(i as int)),
        decreases keys@.len() - i,
    {
        outside::index_map_push(&mut map, keys[i].as_str(), i);
        proof {
            lemma_groups_step(all.take(i as int), all[i as int]);
            assert(all.take(i as int).push(all[i as int]) =~= all.take(i + 1));
        }
        i = i + 1;
    }
    assert(all.take(i as int) =~= all);
    let entries = outside::index_map_into_vec(map);
    let ghost e = entries@;
    let mut rest = entries;
    let mut out: Vec<Group> = Vec::new();
    let ghost mut done: int = 0;
    while rest.len() > 0
        invariant
            0 <= done <= e.len(),
            rest@ == e.skip(done),
            out@.len() == done,
            forall|k: int|
                0 <= k < done ==> (#[trigger] out@[k]).key == e[k].0 && out@[k].members == e[k].1,
        decreases rest.len(),
    {
        let (key, members) = rest.remove(0);
        out.push(Group { key, members });
        proof {
            done = done + 1;
            assert(rest@ =~= e.skip(done));
        }
    }
    assert(group_views(out@) =~= groups_of(all));
    out
}

} // verus!
