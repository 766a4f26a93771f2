//! Sets of names, and values kept under a source.

use crate::records::SourceKind;
use crate::text;
use vstd::prelude::*;

verus! {

/// A set of names.
#[derive(Debug)]
pub struct NameSet {
    names: Vec<String>,
}

impl View for NameSet {
    type V = Set<Seq<char>>;

    closed spec fn view(&self) -> Set<Seq<char>> {
        text::views(self.names@).to_set()
    }
}

impl NameSet {
    #[verifier::type_invariant]
    spec fn apart(self) -> bool {
        text::views(self.names@).no_duplicates()
    }

    /// The set without names.
    pub fn new() -> (r: NameSet)
        ensures
            r@ == Set::<Seq<char>>::empty(),
    {
        let r = NameSet { names: Vec::new() };
        assert(r@ =~= Set::<Seq<char>>::empty());
        r
    }

    /// Whether the name is in the set.
    pub fn contains(&self, name: &str) -> (r: bool)
        ensures
            r == self@.contains(name@),
    {
        let ghost all = text::views(self.names@);
        let mut i: usize = 0;
        while i < self.names.len()
            invariant
                i <= self.names@.len(),
                all == text::views(self.names@),
                forall|k: int| 0 <= k < i ==> #[trigger] all[k] != name@,
            decreases self.names@.len() - i,
        {
            if text::same(self.names[i].as_str(), name) {
                assert(all[i as int] == name@);
                return true;
            }
            assert(all[i as int] == self.names@[i as int]@);
            i = i + 1;
        }
        false
    }

    /// Puts a name into the set.
    pub fn insert(&mut self, name: &str)
        ensures
            final(self)@ == old(self)@.insert(name@),
    {
        proof {
            use_type_invariant(&*self);
        }
        if self.contains(name) {
            assert(self@ =~= self@.insert(name@));
            return;
        }
        let ghost before = text::views(self.names@);
        let mut names: Vec<String> = Vec::new();
        std::mem::swap(&mut names, &mut self.names);
        names.push(name.to_owned());
        assert(text::views(names@) =~= before.push(name@));
        proof {
            let after = before.push(name@);
            assert(after.to_set() =~= before.to_set().insert(name@)) by {
                assert forall|x: Seq<char>| after.contains(x) == (before.contains(x) || x == name@) by {
                    if before.contains(x) {
                        let k = choose|k: int| 0 <= k < before.len() && before[k] == x;
                        assert(after[k] == x);
                    }
                    assert(after[before.len() as int] == name@);
                }
            }
        }
        self.names = names;
    }

    /// Puts every name of another set into this one.
    pub fn absorb(&mut self, other: &NameSet)
        ensures
            final(self)@ == old(self)@.union(other@),
    {
        let ghost start = self@;
        let ghost all = text::views(other.names@);
        let mut i: usize = 0;
        assert(all.take(0).to_set() =~= Set::<Seq<char>>::empty());
        assert(start.union(all.take(0).to_set()) =~= start);
        while i < other.names.len()
            invariant
                i <= other.names@.len(),
                all == text::views(other.names@),
                self@ == start.union(all.take(i as int).to_set()),
            decreases other.names@.len() - i,
        {
            self.insert(other.names[i].as_str());
            proof {
                lemma_take_more(all, i as int);
                assert(self@ =~= start.union(all.take(i + 1).to_set()));
            }
            i = i + 1;
        }
        assert(all.take(i as int) =~= all);
    }

    /// The names, each once.
    pub fn list(&self) -> (r: &Vec<String>)
        ensures
            text::views(r@).no_duplicates(),
            text::views(r@).to_set() == self@,
    {
        proof {
            use_type_invariant(self);
        }
        &self.names
    }

    /// Number of names.
    pub fn len(&self) -> (r: usize)
        ensures
            r == self@.len(),
    {
        proof {
            use_type_invariant(self);
            text::views(self.names@).unique_seq_to_set();
        }
        self.names.len()
    }
}

/// One more element of a list is one more element of its set.
pub proof fn lemma_take_more<T>(all: Seq<T>, i: int)
    requires
        0 <= i < all.len(),
    ensures
        all.take(i + 1).to_set() == all.take(i).to_set().insert(all[i]),
{
    let a = all.take(i);
    let b = all.take(i + 1);
    assert forall|x: T| b.to_set().contains(x) == a.to_set().insert(all[i]).contains(x) by {
        if b.contains(x) {
            let k = choose|k: int| 0 <= k < b.len() && b[k] == x;
            if k < i {
                assert(a[k] == x);
            }
        }
        if a.contains(x) {
            let k = choose|k: int| 0 <= k < a.len() && a[k] == x;
            assert(b[k] == x);
        }
        assert(b[i] == all[i]);
    }
    assert(b.to_set() =~= a.to_set().insert(all[i]));
}

/// Values kept under a source.
#[derive(Debug)]
pub struct BySource<V> {
    entries: Vec<(SourceKind, V)>,
}

spec fn slot<V>(entries: Seq<(SourceKind, V)>, source: SourceKind) -> int
    decreases entries.len(),
{
    if entries.len() == 0 || entries[0].0 == source {
        0
    } else {
        1 + slot(entries.drop_first(), source)
    }
}

proof fn lemma_slot<V>(entries: Seq<(SourceKind, V)>, source: SourceKind, at: int)
    requires
        0 <= at <= entries.len(),
        forall|k: int| 0 <= k < at ==> (#[trigger] entries[k]).0 != source,
        at < entries.len() ==> entries[at].0 == source,
    ensures
        slot(entries, source) == at,
    decreases entries.len(),
{
    if at > 0 {
        assert(entries[0].0 != source);
        let rest = entries.drop_first();
        assert forall|k: int| 0 <= k < at - 1 implies (#[trigger] rest[k]).0 != source by {
            assert(rest[k] == entries[k + 1]);
        }
        lemma_slot(rest, source, at - 1);
    }
}

impl<V> BySource<V> {
    /// What is kept under a source.
    pub closed spec fn at(self, source: SourceKind) -> Option<V> {
        let i = slot(self.entries@, source);
        if i < self.entries@.len() {
            Some(self.entries@[i].1)
        } else {
            None
        }
    }

    /// Nothing kept under any source.
    pub fn new() -> (r: BySource<V>)
        ensures
            forall|s: SourceKind| (#[trigger] r.at(s)) is None,
    {
        BySource { entries: Vec::new() }
    }

    /// Whether nothing is kept under any source.
    pub open spec fn holds_nothing(self) -> bool {
        forall|s: SourceKind| (#[trigger] self.at(s)) is None
    }

    /// Whether nothing is kept under any source.
    pub fn is_empty(&self) -> (r: bool)
        ensures
            r == self.holds_nothing(),
    {
        if self.entries.len() > 0 {
            assert(self.at(self.entries@[0].0) is Some);
        }
        self.entries.len() == 0
    }

    fn find(&self, source: SourceKind) -> (r: usize)
        ensures
            r == slot(self.entries@, source),
            r <= self.entries@.len(),
            forall|k: int| 0 <= k < r ==> (#[trigger] self.entries@[k]).0 != source,
            r < self.entries@.len() ==> self.entries@[r as int].0 == source,
    {
        let mut i: usize = 0;
        while i < self.entries.len() && self.entries[i].0 != source
            invariant
                i <= self.entries@.len(),
                forall|k: int| 0 <= k < i ==> (#[trigger] self.entries@[k]).0 != source,
            decreases self.entries@.len() - i,
        {
            i = i + 1;
        }
        proof {
            lemma_slot(self.entries@, source, i as int);
        }
        i
    }

    /// What is kept under a source.
    pub fn get(&self, source: &SourceKind) -> (r: Option<&V>)
        ensures
            match r {
                Some(v) => self.at(*source) == Some(*v),
                None => self.at(*source) is None,
            },
    {
        let i = self.find(*source);
        if i < self.entries.len() {
            Some(&self.entries[i].1)
        } else {
            None
        }
    }

    /// Keeps a value under a source, in place of what was kept there.
    pub fn set(&mut self, source: SourceKind, value: V)
        ensures
            forall|s: SourceKind|
                #[trigger] final(self).at(s) == (if s == source {
                    Some(value)
                } else {
                    old(self).at(s)
                }),
    {
        let ghost before = self.entries@;
        let i = self.find(source);
        if i < self.entries.len() {
            self.entries.set(i, (source, value));
        } else {
            self.entries.push((source, value));
        }
        proof {
            let after = self.entries@;
            assert forall|s: SourceKind| #[trigger]
                self.at(s) == (if s == source {
                    Some(value)
                } else {
                    old(self).at(s)
                }) by {
                lemma_slot_exists(before, s);
                let j = slot(before, s);
                if s == source {
                    lemma_slot(after, s, i as int);
                } else if j < before.len() {
                    lemma_slot(after, s, j);
                } else {
                    assert forall|k: int| 0 <= k < after.len() implies (#[trigger] after[k]).0 != s by {
                        if k < before.len() && k != i {
                            assert(before[k].0 != s);
                        }
                    }
                    lemma_slot(after, s, after.len() as int);
                }
            }
        }
    }
}

proof fn lemma_slot_exists<V>(entries: Seq<(SourceKind, V)>, source: SourceKind)
    ensures
        0 <= slot(entries, source) <= entries.len(),
        forall|k: int| 0 <= k < slot(entries, source) ==> (#[trigger] entries[k]).0 != source,
        slot(entries, source) < entries.len() ==> entries[slot(entries, source)].0 == source,
    decreases entries.len(),
{
    if entries.len() > 0 && entries[0].0 != source {
        let rest = entries.drop_first();
        lemma_slot_exists(rest, source);
        assert forall|k: int| 0 <= k < slot(entries, source) implies (#[trigger] entries[k]).0
            != source by {
            if k > 0 {
                assert(rest[k - 1] == entries[k]);
            }
        }
    }
}

} // verus!
