//! What an instruction file costs the sessions that carry it in their cache.

use crate::attempts;
use crate::claude_md;
use crate::claude_md::{MarkdownSection, ParsedClaudeMd};
use crate::groups;
use crate::groups::Group;
use crate::order;
use crate::order::Ordered;
use crate::records::TurnRecord;
use crate::sessions;
use crate::streaks;
use crate::text;
use vstd::prelude::*;

verus! {

/// A session that a file rides along in.
#[derive(Debug, Clone, PartialEq)]
pub struct SessionClaudeMdCost {
    pub session_id: String,
    /// The positions of the turns that pay for the file, in order. Each pays
    /// for [`ClaudeMdAttributionResult::total_tokens`] at the rate of its model
    /// for cached input.
    pub cost_turns: Vec<usize>,
    pub riding_turns: u64,
    pub total_turns: u64,
    /// The model of most turns that can be priced.
    pub model: String,
}

/// The share of a section: its bytes out of those of all files.
#[derive(Debug, Clone, Copy, PartialEq, Eq, Structural)]
pub struct SectionCost {
    /// The position of the file.
    pub file: usize,
    /// The position of the section in the file.
    pub section: usize,
    pub level: u32,
    pub bytes: u64,
}

/// What a set of instruction files costs.
#[derive(Debug, Clone, PartialEq)]
pub struct ClaudeMdAttributionResult {
    pub total_tokens: u128,
    pub total_bytes: u128,
    pub session_costs: Vec<SessionClaudeMdCost>,
    /// The sections, the dearest first.
    pub section_costs: Vec<SectionCost>,
}

/// Tokens of the files.
pub open spec fn file_tokens(files: Seq<ParsedClaudeMd>) -> nat
    decreases files.len(),
{
    if files.len() == 0 {
        0
    } else {
        file_tokens(files.drop_last()) + files.last().tokens as nat
    }
}

/// Bytes of the files.
pub open spec fn file_bytes(files: Seq<ParsedClaudeMd>) -> nat
    decreases files.len(),
{
    if files.len() == 0 {
        0
    } else {
        file_bytes(files.drop_last()) + files.last().bytes as nat
    }
}

/// The sections of a file.
pub open spec fn sections_of_file(f: ParsedClaudeMd, at: int) -> Seq<SectionCost> {
    Seq::new(
        f.sections@.len(),
        |j: int|
            SectionCost {
                file: at as usize,
                section: j as usize,
                level: f.sections@[j].level,
                bytes: f.sections@[j].bytes,
            },
    )
}

/// The sections of the files, one after the other.
pub open spec fn all_sections(files: Seq<ParsedClaudeMd>) -> Seq<SectionCost>
    decreases files.len(),
{
    if files.len() == 0 {
        Seq::empty()
    } else {
        all_sections(files.drop_last()) + sections_of_file(files.last(), files.len() - 1)
    }
}

/// The order of sections, the dearest first. A section costs what the files
/// cost in the proportion of its bytes.
pub open spec fn dearest_first() -> spec_fn(SectionCost, SectionCost) -> bool {
    |a: SectionCost, b: SectionCost| a.bytes > b.bytes
}

/// Whether the files cost the turns at `at` anything: some turn carries them
/// that is charged for what it reads from its cache.
pub open spec fn is_charged(
    turns: Seq<TurnRecord>,
    at: Seq<usize>,
    priced: Seq<bool>,
    charged: Seq<bool>,
    tokens: nat,
) -> bool {
    exists|k: int|
        0 <= k < at.len() && rides(turns, priced, tokens, #[trigger] at[k])
            && charged[at[k] as int]
}

/// The sections of the files, the dearest first. Where nothing is paid they all
/// cost the same, and come in the order of the files.
pub open spec fn ranked_sections(files: Seq<ParsedClaudeMd>, is_charged: bool) -> Seq<SectionCost> {
    if is_charged {
        order::stable_sort(all_sections(files), dearest_first())
    } else {
        all_sections(files)
    }
}

/// The session of each of the turns at `at`.
pub open spec fn keys_at(turns: Seq<TurnRecord>, at: Seq<usize>) -> Seq<Seq<char>> {
    at.map_values(|i: usize| turns[i as int].session_id@)
}

/// The sessions of the turns at `at` in first-seen order, each with its turns
/// in the order of their turn indices.
pub open spec fn sessions_at(turns: Seq<TurnRecord>, at: Seq<usize>) -> Seq<
    (Seq<char>, Seq<usize>),
> {
    groups::groups_of(keys_at(turns, at)).map_values(
        |g: (Seq<char>, Seq<usize>)|
            (g.0, sessions::by_turn_index(turns, g.1.map_values(|k: usize| at[k as int]))),
    )
}

/// The turns whose model has a price.
pub open spec fn priced_turns(members: Seq<usize>, priced: Seq<bool>) -> Seq<usize> {
    streaks::pick(members, |m: usize| priced[m as int])
}

/// Whether the turn has a price, and a cache that is large enough to hold the
/// files.
pub open spec fn rides(
    turns: Seq<TurnRecord>,
    priced: Seq<bool>,
    tokens: nat,
    m: usize,
) -> bool {
    priced[m as int] && turns[m as int].usage.cache_read >= tokens
}

/// The turns whose cache is large enough to hold the files.
pub open spec fn riding_turns(
    turns: Seq<TurnRecord>,
    members: Seq<usize>,
    priced: Seq<bool>,
    tokens: nat,
) -> Seq<usize> {
    streaks::pick(members, |m: usize| rides(turns, priced, tokens, m))
}

/// The models of the turns.
pub open spec fn models_of(turns: Seq<TurnRecord>, members: Seq<usize>) -> Seq<Seq<char>> {
    members.map_values(|m: usize| turns[m as int].model@)
}

/// The key of the first group that no other is larger than; empty where there
/// is none.
pub open spec fn largest(g: Seq<(Seq<char>, Seq<usize>)>) -> (Seq<char>, int)
    decreases g.len(),
{
    if g.len() == 0 {
        (Seq::empty(), -1)
    } else {
        let best = largest(g.drop_last());
        if g.last().1.len() > best.1 {
            (g.last().0, g.last().1.len() as int)
        } else {
            best
        }
    }
}

/// The model of most turns, the first seen where several are level.
pub open spec fn dominant_model(models: Seq<Seq<char>>) -> Seq<char> {
    largest(groups::groups_of(models)).0
}

/// Whether `r` says what the files cost the session `s`.
pub open spec fn is_session_cost(
    r: SessionClaudeMdCost,
    s: (Seq<char>, Seq<usize>),
    turns: Seq<TurnRecord>,
    priced: Seq<bool>,
    tokens: nat,
) -> bool {
    &&& r.session_id@ == s.0
    &&& r.cost_turns@ == riding_turns(turns, s.1, priced, tokens)
    &&& r.riding_turns == r.cost_turns@.len()
    &&& r.total_turns == s.1.len()
    &&& r.model@ == dominant_model(models_of(turns, priced_turns(s.1, priced)))
}

/// Whether `r` says what the files cost the turns at `at`.
pub open spec fn is_attribution(
    r: ClaudeMdAttributionResult,
    files: Seq<ParsedClaudeMd>,
    turns: Seq<TurnRecord>,
    at: Seq<usize>,
    priced: Seq<bool>,
    charged: Seq<bool>,
) -> bool {
    let tokens = file_tokens(files);
    let s = sessions_at(turns, at);
    &&& r.total_tokens == tokens
    &&& if tokens == 0 {
        r.session_costs@.len() == 0 && r.section_costs@.len() == 0 && r.total_bytes == 0
    } else {
        &&& r.total_bytes == file_bytes(files)
        &&& r.section_costs@ == ranked_sections(
            files,
            file_bytes(files) > 0 && is_charged(turns, at, priced, charged, tokens),
        )
        &&& r.session_costs@.len() == s.len()
        &&& forall|i: int|
            0 <= i < s.len() ==> is_session_cost(
                #[trigger] r.session_costs@[i],
                s[i],
                turns,
                priced,
                tokens,
            )
    }
}

fn sum_files(files: &[ParsedClaudeMd]) -> (r: (u128, u128))
    ensures
        r.0 == file_tokens(files@),
        r.1 == file_bytes(files@),
{
    let mut tokens: u128 = 0;
    let mut bytes: u128 = 0;
    let mut i: usize = 0;
    assert(files@.take(0) =~= Seq::<ParsedClaudeMd>::empty());
    while i < files.len()
        invariant
            i <= files@.len(),
            tokens == file_tokens(files@.take(i as int)),
            bytes == file_bytes(files@.take(i as int)),
            tokens <= i * u64::MAX,
            bytes <= i * u64::MAX,
        decreases files@.len() - i,
    {
        assert(files@.take(i + 1).drop_last() =~= files@.take(i as int));
        assert((i + 1) * u64::MAX == i * u64::MAX + u64::MAX) by (nonlinear_arith);
        assert((i + 1) * u64::MAX <= u128::MAX) by (nonlinear_arith)
            requires
                i + 1 <= usize::MAX,
        ;
        tokens = tokens + files[i].tokens as u128;
        bytes = bytes + files[i].bytes as u128;
        i = i + 1;
    }
    assert(files@.take(i as int) =~= files@);
    (tokens, bytes)
}

fn list_sections(files: &[ParsedClaudeMd]) -> (r: Vec<SectionCost>)
    ensures
        r@ == all_sections(files@),
{
    let mut out: Vec<SectionCost> = Vec::new();
    let mut i: usize = 0;
    assert(files@.take(0) =~= Seq::<ParsedClaudeMd>::empty());
    while i < files.len()
        invariant
            i <= files@.len(),
            out@ == all_sections(files@.take(i as int)),
        decreases files@.len() - i,
    {
        let ghost start = out@;
        let f = &files[i];
        let ghost list = sections_of_file(*f, i as int);
        let mut j: usize = 0;
        assert(list.take(0) =~= Seq::<SectionCost>::empty());
        assert(start + list.take(0) =~= start);
        while j < f.sections.len()
            invariant
                j <= f.sections@.len(),
                list == sections_of_file(*f, i as int),
                out@ == start + list.take(j as int),
            decreases f.sections@.len() - j,
        {
            let s = &f.sections[j];
            out.push(SectionCost { file: i, section: j, level: s.level, bytes: s.bytes });
            assert(start + list.take(j + 1) =~= (start + list.take(j as int)).push(
                list[j as int],
            ));
            j = j + 1;
        }
        assert(list.take(j as int) =~= list);
        assert(files@.take(i + 1).drop_last() =~= files@.take(i as int));
        assert(files@.take(i + 1).last() == *f);
        i = i + 1;
    }
    assert(files@.take(i as int) =~= files@);
    out
}

fn pick_dominant_model(counts: &Vec<Group>) -> (r: String)
    ensures
        r@ == largest(groups::group_views(counts@)).0,
{
    let ghost g = groups::group_views(counts@);
    let mut best = String::new();
    let mut n: Option<usize> = None;
    let mut i: usize = 0;
    assert(g.take(0) =~= Seq::<(Seq<char>, Seq<usize>)>::empty());
    assert(best@ =~= Seq::<char>::empty());
    while i < counts.len()
        invariant
            i <= counts@.len(),
            g == groups::group_views(counts@),
            best@ == largest(g.take(i as int)).0,
            largest(g.take(i as int)).1 == (match n {
                Some(k) => k as int,
                None => -1,
            }),
        decreases counts@.len() - i,
    {
        assert(g.take(i + 1).drop_last() =~= g.take(i as int));
        assert(g.take(i + 1).last() == (counts@[i as int].key@, counts@[i as int].members@));
        let k: usize = counts[i].members.len();
        let larger = match n {
            Some(m) => k > m,
            None => true,
        };
        if larger {
            best = counts[i].key.clone();
            n = Some(k);
        }
        i = i + 1;
    }
    assert(g.take(i as int) =~= g);
    best
}

fn find_session_cost(
    session_id: &str,
    turns: &[TurnRecord],
    members: &Vec<usize>,
    priced: &[bool],
    tokens: u128,
) -> (r: SessionClaudeMdCost)
    requires
        attempts::inside(members@, turns@.len()),
        priced@.len() == turns@.len(),
    ensures
        is_session_cost(r, (session_id@, members@), turns@, priced@, tokens as nat),
{
    let ghost p = |m: usize| priced@[m as int];
    let ghost q = |m: usize| rides(turns@, priced@, tokens as nat, m);
    let mut models: Vec<String> = Vec::new();
    let mut cost_turns: Vec<usize> = Vec::new();
    let mut i: usize = 0;
    assert(members@.take(0) =~= Seq::<usize>::empty());
    assert(text::views(models@) =~= Seq::<Seq<char>>::empty());
    assert(models_of(turns@, Seq::<usize>::empty()) =~= Seq::<Seq<char>>::empty());
    while i < members.len()
        invariant
            i <= members@.len(),
            attempts::inside(members@, turns@.len()),
            priced@.len() == turns@.len(),
            p == (|m: usize| priced@[m as int]),
            q == (|m: usize| rides(turns@, priced@, tokens as nat, m)),
            text::views(models@) == models_of(
                turns@,
                streaks::pick(members@.take(i as int), p),
            ),
            cost_turns@ == streaks::pick(members@.take(i as int), q),
        decreases members@.len() - i,
    {
        assert(members@.take(i + 1).drop_last() =~= members@.take(i as int));
        assert(members@.take(i + 1).last() == members@[i as int]);
        let m: usize = members[i];
        let t = &turns[m];
        if priced[m] {
            let ghost before = text::views(models@);
            let ghost seen = streaks::pick(members@.take(i as int), p);
            models.push(t.model.clone());
            assert(text::views(models@) =~= before.push(t.model@));
            assert(models_of(turns@, seen.push(m)) =~= models_of(turns@, seen).push(t.model@));
            if t.usage.cache_read as u128 >= tokens {
                cost_turns.push(m);
            }
        }
        i = i + 1;
    }
    assert(members@.take(i as int) =~= members@);
    let counts = groups::group_by_key(&models);
    SessionClaudeMdCost {
        session_id: session_id.to_owned(),
        riding_turns: cost_turns.len() as u64,
        cost_turns,
        total_turns: members.len() as u64,
        model: pick_dominant_model(&counts),
    }
}

fn group_at(turns: &[TurnRecord], at: &Vec<usize>) -> (r: Vec<Group>)
    requires
        attempts::inside(at@, turns@.len()),
    ensures
        groups::group_views(r@) == sessions_at(turns@, at@),
        forall|i: int|
            0 <= i < r@.len() ==> attempts::inside((#[trigger] r@[i]).members@, turns@.len()),
{
    let ghost names = keys_at(turns@, at@);
    let mut keys: Vec<String> = Vec::new();
    let mut i: usize = 0;
    while i < at.len()
        invariant
            i <= at@.len(),
            attempts::inside(at@, turns@.len()),
            keys@.len() == i,
            forall|k: int|
                0 <= k < i ==> (#[trigger] keys@[k])@ == turns@[at@[k] as int].session_id@,
        decreases at@.len() - i,
    {
        keys.push(turns[at[i]].session_id.clone());
        i = i + 1;
    }
    assert(text::views(keys@) =~= names);
    let found = groups::group_by_key(&keys);
    let ghost gs = groups::groups_of(names);
    let n: usize = at.len();
    let mut out: Vec<Group> = Vec::new();
    let mut g: usize = 0;
    while g < found.len()
        invariant
            g <= found@.len(),
            n == at@.len(),
            attempts::inside(at@, turns@.len()),
            names == keys_at(turns@, at@),
            gs == groups::groups_of(names),
            gs == groups::group_views(found@),
            gs.len() == found@.len(),
            out@.len() == g,
            forall|k: int|
                0 <= k < g ==> ((#[trigger] out@[k]).key@, out@[k].members@) == sessions_at(
                    turns@,
                    at@,
                )[k],
            forall|k: int|
                0 <= k < g ==> attempts::inside((#[trigger] out@[k]).members@, turns@.len()),
        decreases found@.len() - g,
    {
        let ghost key = groups::first_seen(names)[g as int];
        let members = &found[g].members;
        assert(gs[g as int] == groups::group_views(found@)[g as int]);
        proof {
            groups::lemma_positions(names, key);
            assert(gs[g as int] == (key, groups::positions(names, key)));
            assert forall|k: int| 0 <= k < members@.len() implies (#[trigger] members@[k])
                < at@.len() by {
                assert(groups::positions(names, key)[k] < names.len());
            }
        }
        let mut list: Vec<usize> = Vec::new();
        let mut j: usize = 0;
        while j < members.len()
            invariant
                j <= members@.len(),
                attempts::inside(at@, turns@.len()),
                attempts::inside(members@, at@.len()),
                list@.len() == j,
                forall|k: int| 0 <= k < j ==> #[trigger] list@[k] == at@[members@[k] as int],
                attempts::inside(list@, turns@.len()),
            decreases members@.len() - j,
        {
            assert(members@[j as int] < at@.len());
            assert(at@[members@[j as int] as int] < turns@.len());
            list.push(at[members[j]]);
            j = j + 1;
        }
        assert(list@ =~= members@.map_values(|k: usize| at@[k as int]));
        let sorted = sessions::sort_by_turn_index(turns, &list);
        out.push(Group { key: found[g].key.clone(), members: sorted });
        g = g + 1;
    }
    assert(groups::group_views(out@) =~= sessions_at(turns@, at@));
    out
}

impl Ordered for SectionCost {
    open spec fn before(self, other: Self) -> bool {
        dearest_first()(self, other)
    }

    fn is_before(&self, other: &Self) -> (r: bool) {
        self.bytes > other.bytes
    }
}

fn rank_sections(files: &[ParsedClaudeMd], is_charged: bool) -> (r: Vec<SectionCost>)
    ensures
        r@ == ranked_sections(files@, is_charged),
{
    let rows = list_sections(files);
    if is_charged {
        assert(order::order_of::<SectionCost>() =~= dearest_first());
        order::sort(rows)
    } else {
        rows
    }
}

fn check_charged(
    turns: &[TurnRecord],
    at: &Vec<usize>,
    priced: &[bool],
    charged: &[bool],
    tokens: u128,
) -> (r: bool)
    requires
        attempts::inside(at@, turns@.len()),
        priced@.len() == turns@.len(),
        charged@.len() == turns@.len(),
    ensures
        r == is_charged(turns@, at@, priced@, charged@, tokens as nat),
{
    let mut k: usize = 0;
    while k < at.len()
        invariant
            k <= at@.len(),
            attempts::inside(at@, turns@.len()),
            priced@.len() == turns@.len(),
            charged@.len() == turns@.len(),
            forall|j: int|
                0 <= j < k ==> !(rides(turns@, priced@, tokens as nat, #[trigger] at@[j])
                    && charged@[at@[j] as int]),
        decreases at@.len() - k,
    {
        let m: usize = at[k];
        assert(at@[k as int] < turns@.len());
        if priced[m] && turns[m].usage.cache_read as u128 >= tokens && charged[m] {
            assert(rides(turns@, priced@, tokens as nat, at@[k as int]));
            return true;
        }
        k = k + 1;
    }
    false
}

/// What the files cost the turns at `at`. `priced` says for each turn whether
/// its model has a price, and `charged` whether that for cached input is more
/// than nothing.
pub fn attribute_claude_md_refs(
    files: &[ParsedClaudeMd],
    turns: &[TurnRecord],
    at: &Vec<usize>,
    priced: &[bool],
    charged: &[bool],
) -> (r: ClaudeMdAttributionResult)
    requires
        attempts::inside(at@, turns@.len()),
        priced@.len() == turns@.len(),
        charged@.len() == turns@.len(),
    ensures
        is_attribution(r, files@, turns@, at@, priced@, charged@),
{
    let (tokens, bytes) = sum_files(files);
    if tokens == 0 {
        return ClaudeMdAttributionResult {
            total_tokens: 0,
            total_bytes: 0,
            session_costs: Vec::new(),
            section_costs: Vec::new(),
        };
    }
    let found = group_at(turns, at);
    let ghost s = sessions_at(turns@, at@);
    let mut session_costs: Vec<SessionClaudeMdCost> = Vec::new();
    let mut i: usize = 0;
    assert(groups::group_views(found@).len() == found@.len());
    while i < found.len()
        invariant
            i <= found@.len(),
            priced@.len() == turns@.len(),
            s == groups::group_views(found@),
            s == sessions_at(turns@, at@),
            forall|i: int|
                0 <= i < found@.len() ==> attempts::inside(
                    (#[trigger] found@[i]).members@,
                    turns@.len(),
                ),
            session_costs@.len() == i,
            forall|k: int|
                0 <= k < i ==> is_session_cost(
                    #[trigger] session_costs@[k],
                    s[k],
                    turns@,
                    priced@,
                    tokens as nat,
                ),
        decreases found@.len() - i,
    {
        assert(s[i as int] == (found@[i as int].key@, found@[i as int].members@));
        let cost = find_session_cost(
            found[i].key.as_str(),
            turns,
            &found[i].members,
            priced,
            tokens,
        );
        session_costs.push(cost);
        i = i + 1;
    }
    let paid = bytes > 0 && check_charged(turns, at, priced, charged, tokens);
    ClaudeMdAttributionResult {
        total_tokens: tokens,
        total_bytes: bytes,
        session_costs,
        section_costs: rank_sections(files, paid),
    }
}

/// The rows are the sections of the files, each once, and where the files cost
/// anything no row costs less than a later one.
pub proof fn lemma_ranked_sections(files: Seq<ParsedClaudeMd>, is_charged: bool)
    ensures
        ranked_sections(files, is_charged).to_multiset() == all_sections(files).to_multiset(),
        is_charged ==> forall|i: int, j: int|
            #![trigger ranked_sections(files, is_charged)[i], ranked_sections(files, is_charged)[j]]
            0 <= i < j < ranked_sections(files, is_charged).len() ==> ranked_sections(
                files,
                is_charged,
            )[i].bytes >= ranked_sections(files, is_charged)[j].bytes,
{
    let all = all_sections(files);
    order::lemma_sort_multiset(all, dearest_first());
    order::lemma_sort_in_order(all, dearest_first());
}

/// A turn that pays for a larger set of files pays for a smaller one too.
pub proof fn lemma_smaller_rides_more(
    turns: Seq<TurnRecord>,
    members: Seq<usize>,
    priced: Seq<bool>,
    small: nat,
    large: nat,
)
    requires
        small <= large,
    ensures
        riding_turns(turns, members, priced, large).len() <= riding_turns(
            turns,
            members,
            priced,
            small,
        ).len() <= members.len(),
    decreases members.len(),
{
    if members.len() > 0 {
        lemma_smaller_rides_more(turns, members.drop_last(), priced, small, large);
    }
}

/// The first `n` rows with a heading.
pub open spec fn trimmable(rows: Seq<SectionCost>, n: nat) -> Seq<usize>
    decreases rows.len(),
{
    if rows.len() == 0 {
        Seq::empty()
    } else {
        let rest = trimmable(rows.drop_last(), n);
        if rows.last().level > 0 && rest.len() < n {
            rest.push((rows.len() - 1) as usize)
        } else {
            rest
        }
    }
}

/// The positions of the sections to trim: the first `top_n` of the rows that
/// are not the preamble of a file. The rows come with the dearest first.
pub fn build_trim_recommendations(rows: &[SectionCost], top_n: usize) -> (r: Vec<usize>)
    ensures
        r@ == trimmable(rows@, top_n as nat),
{
    let mut out: Vec<usize> = Vec::new();
    let mut i: usize = 0;
    assert(rows@.take(0) =~= Seq::<SectionCost>::empty());
    while i < rows.len()
        invariant
            i <= rows@.len(),
            out@ == trimmable(rows@.take(i as int), top_n as nat),
        decreases rows@.len() - i,
    {
        assert(rows@.take(i + 1).drop_last() =~= rows@.take(i as int));
        if rows[i].level > 0 && out.len() < top_n {
            out.push(i);
        }
        i = i + 1;
    }
    assert(rows@.take(i as int) =~= rows@);
    out
}

/// Of rows that come with the dearest first, a section to trim costs at least as
/// much as any section with a heading that is not.
pub proof fn lemma_trims_the_dearest(rows: Seq<SectionCost>, n: nat, i: int, j: int)
    requires
        order::in_order(rows, dearest_first()),
        0 <= i < rows.len(),
        0 <= j < rows.len(),
        trimmable(rows, n).contains(i as usize),
        rows[j].level > 0,
        !trimmable(rows, n).contains(j as usize),
        rows.len() <= usize::MAX,
    ensures
        rows[i].bytes >= rows[j].bytes,
{
    lemma_trimmable(rows, n, i, j);
    assert(!dearest_first()(rows[j], rows[i]));
}

proof fn lemma_trimmable(rows: Seq<SectionCost>, n: nat, i: int, j: int)
    requires
        0 <= i < rows.len() <= usize::MAX,
        0 <= j < rows.len(),
        trimmable(rows, n).contains(i as usize),
        rows[j].level > 0,
        !trimmable(rows, n).contains(j as usize),
    ensures
        i < j,
    decreases rows.len(),
{
    let most = rows.drop_last();
    let rest = trimmable(most, n);
    let last = rows.len() - 1;
    let all = trimmable(rows, n);
    lemma_trimmable_inside(most, n);
    assert forall|x: usize| rest.contains(x) implies all.contains(x) by {
        let k = choose|k: int| 0 <= k < rest.len() && rest[k] == x;
        assert(all[k] == x);
    }
    if j == last {
        assert(i != j);
    } else {
        if i == last {
            assert(all == rest.push(last as usize)) by {
                if all == rest {
                    let k = choose|k: int| 0 <= k < rest.len() && rest[k] == i as usize;
                    assert(rest[k] < most.len());
                }
            }
            lemma_trimmable_full(most, n, j);
        } else {
            let k = choose|k: int| 0 <= k < all.len() && all[k] == i as usize;
            assert(k < rest.len() ==> rest[k] == i as usize);
            assert(rest.contains(i as usize));
            assert(most[j] == rows[j]);
            lemma_trimmable(most, n, i, j);
        }
    }
}

proof fn lemma_trimmable_inside(rows: Seq<SectionCost>, n: nat)
    requires
        rows.len() <= usize::MAX,
    ensures
        trimmable(rows, n).len() <= n,
        forall|k: int| 0 <= k < trimmable(rows, n).len() ==> (#[trigger] trimmable(rows, n)[k])
            < rows.len(),
    decreases rows.len(),
{
    if rows.len() > 0 {
        lemma_trimmable_inside(rows.drop_last(), n);
    }
}

/// A row with a heading is passed over only where there are enough already.
proof fn lemma_trimmable_full(rows: Seq<SectionCost>, n: nat, j: int)
    requires
        0 <= j < rows.len() <= usize::MAX,
        rows[j].level > 0,
        !trimmable(rows, n).contains(j as usize),
    ensures
        trimmable(rows, n).len() >= n,
    decreases rows.len(),
{
    let most = rows.drop_last();
    let rest = trimmable(most, n);
    let all = trimmable(rows, n);
    if j == rows.len() - 1 {
        if rest.len() < n {
            assert(all[rest.len() as int] == j as usize);
        }
    } else {
        assert forall|x: usize| rest.contains(x) implies all.contains(x) by {
            let k = choose|k: int| 0 <= k < rest.len() && rest[k] == x;
            assert(all[k] == x);
        }
        assert(most[j] == rows[j]);
        lemma_trimmable_full(most, n, j);
    }
}

/// The lines that a section takes up, each marked as removed.
pub open spec fn removed_lines(lines: Seq<Seq<char>>, start: int, end: int) -> Seq<Seq<char>> {
    let lo = if start - 1 < lines.len() {
        start - 1
    } else {
        lines.len() as int
    };
    let hi = if end < lines.len() {
        end
    } else {
        lines.len() as int
    };
    lines.subrange(
        lo,
        if hi < lo {
            lo
        } else {
            hi
        },
    ).map_values(|l: Seq<char>| "-"@ + l)
}

/// The text of a diff that removes a section.
pub open spec fn diff_text(
    display: Seq<char>,
    heading: Seq<char>,
    per_session: Seq<char>,
    window: Seq<char>,
    start: nat,
    removed: Seq<Seq<char>>,
) -> Seq<char> {
    "# TRIM: "@ + heading + "\n# projected savings per session: $"@ + per_session
        + "\n# projected savings across window: $"@ + window + "\n--- a/"@ + display + "\n+++ b/"@
        + display + "\n@@ -"@ + text::decimal(start) + ","@ + text::decimal(removed.len()) + " +"@
        + text::decimal(start) + ",0 @@\n"@ + text::joined(removed, "\n"@)
}

/// A diff that removes a section from its file. `display` is the path to show;
/// the two amounts come written out.
pub fn render_unified_diff_for_recommendation(
    display: &str,
    file_text: &str,
    section: &MarkdownSection,
    per_session: &str,
    window: &str,
) -> (r: String)
    requires
        1 <= section.start_line <= usize::MAX,
        section.start_line - 1 <= section.end_line <= usize::MAX,
    ensures
        r@ == diff_text(
            display@,
            section.heading@,
            per_session@,
            window@,
            section.start_line as nat,
            removed_lines(
                claude_md::lines_of(claude_md::unify(file_text@)),
                section.start_line as int,
                section.end_line as int,
            ),
        ),
{
    let lines = claude_md::editor_lines(file_text);
    let ghost all = text::views(lines@);
    let start: usize = section.start_line as usize;
    let end: usize = section.end_line as usize;
    let lo: usize = if start - 1 < lines.len() {
        start - 1
    } else {
        lines.len()
    };
    let hi: usize = if end < lines.len() {
        end
    } else {
        lines.len()
    };
    let hi: usize = if hi < lo {
        lo
    } else {
        hi
    };
    let ghost marked = removed_lines(all, start as int, end as int);
    let mut removed: Vec<String> = Vec::new();
    let mut i: usize = lo;
    while i < hi
        invariant
            lo <= i <= hi <= lines@.len(),
            all == text::views(lines@),
            marked == all.subrange(lo as int, hi as int).map_values(|l: Seq<char>| "-"@ + l),
            removed@.len() == i - lo,
            forall|k: int| 0 <= k < i - lo ==> (#[trigger] removed@[k])@ == marked[k],
        decreases hi - i,
    {
        assert(marked[i - lo] == "-"@ + all[i as int]);
        removed.push(text::join2("-", lines[i].as_str()));
        i = i + 1;
    }
    assert(text::views(removed@) =~= marked);
    let mut out = "# TRIM: ".to_owned();
    text::push_str(&mut out, section.heading.as_str());
    text::push_str(&mut out, "\n# projected savings per session: $");
    text::push_str(&mut out, per_session);
    text::push_str(&mut out, "\n# projected savings across window: $");
    text::push_str(&mut out, window);
    text::push_str(&mut out, "\n--- a/");
    text::push_str(&mut out, display);
    text::push_str(&mut out, "\n+++ b/");
    text::push_str(&mut out, display);
    text::push_str(&mut out, "\n@@ -");
    text::push_str(&mut out, text::decimal_string(start as u64).as_str());
    text::push_str(&mut out, ",");
    text::push_str(&mut out, text::decimal_string(removed.len() as u64).as_str());
    text::push_str(&mut out, " +");
    text::push_str(&mut out, text::decimal_string(start as u64).as_str());
    text::push_str(&mut out, ",0 @@\n");
    text::push_str(&mut out, text::join(&removed, "\n").as_str());
    out
}

/// `s` without the slashes at its start.
pub open spec fn without_slashes(s: Seq<char>) -> Seq<char>
    decreases s.len(),
{
    if s.len() > 0 && s[0] == '/' {
        without_slashes(s.drop_first())
    } else {
        s
    }
}

/// The path as a diff shows it: without slashes at its start.
pub fn display_path(path: &str) -> (r: String)
    ensures
        r@ == without_slashes(path@),
{
    let cs = text::chars_of(path);
    let mut i: usize = 0;
    assert(cs@.skip(0) =~= cs@);
    while i < cs.len() && cs[i] == '/'
        invariant
            i <= cs@.len(),
            without_slashes(cs@) == without_slashes(cs@.skip(i as int)),
        ensures
            i <= cs@.len(),
            without_slashes(cs@) == cs@.skip(i as int),
        decreases cs@.len() - i,
    {
        assert(cs@.skip(i as int).drop_first() =~= cs@.skip(i + 1));
        i = i + 1;
    }
    assert(cs@.skip(i as int) =~= cs@.subrange(i as int, cs@.len() as int));
    text::string_of(&cs, i, cs.len())
}

} // verus!
