//! Instruction files: their sections, and the turns that pay for them.

use crate::claude_md;
use crate::claude_md::{HeadingView, LineMarks, ParsedClaudeMd};
use crate::groups;
use crate::laws;
use crate::md_cost;
use crate::md_cost::{ClaudeMdAttributionResult, SectionCost};
use crate::order;
use crate::overhead;
use crate::overhead::ParsedOverheadFile;
use crate::records::{SourceKind, TurnRecord};
use crate::sessions;
use crate::streaks;
use crate::text;
use vstd::prelude::*;

verus! {

/// The heading that the line has.
pub open spec fn heading_on(marks: Seq<LineMarks>, i: int) -> HeadingView {
    let (hashes, body) = marks[i].heading->Some_0;
    HeadingView {
        line: i + 1,
        level: (text::blen(hashes) as u32) as int,
        text: hashes + seq![' '] + body,
    }
}

proof fn lemma_no_fence(marks: Seq<LineMarks>, n: int)
    requires
        0 <= n <= marks.len(),
        forall|k: int| 0 <= k < n ==> (#[trigger] marks[k]).fence is None,
    ensures
        claude_md::scan(marks.take(n)).fence is None,
    decreases n,
{
    if n > 0 {
        lemma_no_fence(marks, n - 1);
        assert(marks.take(n).drop_last() =~= marks.take(n - 1));
        assert(marks.take(n).last() == marks[n - 1]);
    } else {
        assert(marks.take(0) =~= Seq::<LineMarks>::empty());
    }
}

proof fn lemma_found_stays(marks: Seq<LineMarks>, n: int, m: int)
    requires
        0 <= n <= m <= marks.len(),
    ensures
        claude_md::scan(marks.take(n)).found.len() <= claude_md::scan(marks.take(m)).found.len(),
        forall|k: int|
            0 <= k < claude_md::scan(marks.take(n)).found.len() ==> #[trigger] claude_md::scan(
                marks.take(m),
            ).found[k] == claude_md::scan(marks.take(n)).found[k],
        forall|k: int|
            claude_md::scan(marks.take(n)).found.len() <= k < claude_md::scan(
                marks.take(m),
            ).found.len() ==> n < (#[trigger] claude_md::scan(marks.take(m)).found[k]).line <= m,
    decreases m,
{
    if n < m {
        lemma_found_stays(marks, n, m - 1);
        assert(marks.take(m).drop_last() =~= marks.take(m - 1));
        assert(marks.take(m).last() == marks[m - 1]);
        let a = claude_md::scan(marks.take(m - 1)).found;
        let b = claude_md::scan(marks.take(m)).found;
        assert forall|k: int|
            claude_md::scan(marks.take(n)).found.len() <= k < b.len() implies n < (
        #[trigger] b[k]).line <= m by {
            if k < a.len() {
                assert(b[k] == a[k]);
            }
        }
        assert forall|k: int| 0 <= k < claude_md::scan(marks.take(n)).found.len() implies #[trigger] b[k]
            == claude_md::scan(marks.take(n)).found[k] by {
            assert(b[k] == a[k]);
        }
    }
}

/// A heading with no fence above it is a heading of the file.
pub proof fn lemma_headings(marks: Seq<LineMarks>, i: int) -> (k: int)
    requires
        0 <= i < marks.len(),
        forall|k: int| 0 <= k <= i ==> (#[trigger] marks[k]).fence is None,
        marks[i].heading is Some,
    ensures
        0 <= k < claude_md::headings_of(marks).len(),
        claude_md::headings_of(marks)[k] == heading_on(marks, i),
{
    lemma_no_fence(marks, i);
    assert(marks.take(i + 1).drop_last() =~= marks.take(i));
    assert(marks.take(i + 1).last() == marks[i]);
    assert(marks.take(marks.len() as int) =~= marks);
    lemma_found_stays(marks, i + 1, marks.len() as int);
    let at = claude_md::scan(marks.take(i)).found.len() as int;
    let (hashes, body) = marks[i].heading->Some_0;
    assert(hashes.push(' ') + body =~= hashes + seq![' '] + body);
    assert(claude_md::scan(marks.take(i + 1)).found[at] == heading_on(marks, i));
    at
}

/// Whether the line closes a fence of `n` times `c`: it begins with as many of
/// them at least, and nothing but white space follows.
pub open spec fn closes(line: Seq<char>, c: char, n: nat) -> bool {
    exists|m: int|
        #![trigger line.skip(m)]
        n <= m <= line.len() && (forall|k: int| 0 <= k < m ==> #[trigger] line[k] == c)
            && laws::text::blank(line.skip(m)) && (m < line.len() ==> line[m] != c)
}

proof fn lemma_lead_run(line: Seq<char>, c: char, m: int)
    requires
        0 <= m <= line.len(),
        forall|k: int| 0 <= k < m ==> #[trigger] line[k] == c,
        m < line.len() ==> line[m] != c,
    ensures
        claude_md::lead_run(line, c) == m,
    decreases line.len(),
{
    if m > 0 {
        assert(line[0] == c);
        let d = line.drop_first();
        assert forall|k: int| 0 <= k < m - 1 implies #[trigger] d[k] == c by {
            assert(d[k] == line[k + 1]);
        }
        if m < line.len() {
            assert(d[m - 1] == line[m]);
        }
        lemma_lead_run(d, c, m - 1);
    }
}

proof fn lemma_lead_exists(line: Seq<char>, c: char)
    ensures
        ({
            let m = claude_md::lead_run(line, c) as int;
            &&& 0 <= m <= line.len()
            &&& forall|k: int| 0 <= k < m ==> #[trigger] line[k] == c
            &&& m < line.len() ==> line[m] != c
        }),
    decreases line.len(),
{
    if line.len() > 0 && line[0] == c {
        let d = line.drop_first();
        lemma_lead_exists(d, c);
        let m = claude_md::lead_run(d, c) as int;
        assert forall|k: int| 0 <= k < m + 1 implies #[trigger] line[k] == c by {
            if k > 0 {
                assert(d[k - 1] == line[k]);
            }
        }
        if m < d.len() {
            assert(line[m + 1] == d[m]);
        }
    }
}

proof fn lemma_closes(line: Seq<char>, c: char, n: nat)
    ensures
        closes(line, c, n) <==> claude_md::closes_fence(line, c, n),
{
    lemma_lead_exists(line, c);
    let r = claude_md::lead_run(line, c) as int;
    if closes(line, c, n) {
        let m = choose|m: int|
            #![trigger line.skip(m)]
            n <= m <= line.len() && (forall|k: int| 0 <= k < m ==> #[trigger] line[k] == c)
                && laws::text::blank(line.skip(m)) && (m < line.len() ==> line[m] != c);
        lemma_lead_run(line, c, m);
    }
    if claude_md::closes_fence(line, c, n) {
        assert(laws::text::blank(line.skip(r)));
    }
}

/// No line inside of a code fence is a heading: not the one that opens it, nor
/// any up to the one that closes it.
pub proof fn lemma_no_headings_in_fences(marks: Seq<LineMarks>, a: int, i: int)
    requires
        0 <= a <= i < marks.len(),
        forall|k: int| 0 <= k < a ==> (#[trigger] marks[k]).fence is None,
        marks[a].fence is Some,
        marks[a].fence->Some_0.len() > 0,
        forall|k: int|
            a < k < i ==> !closes(
                (#[trigger] marks[k]).trimmed,
                marks[a].fence->Some_0[0],
                text::blen(marks[a].fence->Some_0),
            ),
    ensures
        forall|k: int|
            0 <= k < claude_md::headings_of(marks).len() ==> (#[trigger] claude_md::headings_of(
                marks,
            )[k]).line != i + 1,
{
    lemma_no_fence(marks, a);
    lemma_in_fence(marks, a, i);
    assert(marks.take(i + 1).drop_last() =~= marks.take(i));
    assert(marks.take(i + 1).last() == marks[i]);
    assert(marks.take(a + 1).drop_last() =~= marks.take(a));
    assert(marks.take(a + 1).last() == marks[a]);
    assert(marks.take(marks.len() as int) =~= marks);
    assert(marks.take(0) =~= Seq::<LineMarks>::empty());
    let before = claude_md::scan(marks.take(i)).found;
    let at = claude_md::scan(marks.take(i + 1)).found;
    assert(at == before);
    lemma_found_stays(marks, 0, i);
    lemma_found_stays(marks, i + 1, marks.len() as int);
    let all = claude_md::headings_of(marks);
    assert forall|k: int| 0 <= k < all.len() implies (#[trigger] all[k]).line != i + 1 by {
        if k < at.len() {
            assert(all[k] == before[k]);
        }
    }
}

proof fn lemma_in_fence(marks: Seq<LineMarks>, a: int, n: int)
    requires
        0 <= a <= n < marks.len(),
        claude_md::scan(marks.take(a)).fence is None,
        marks[a].fence is Some,
        marks[a].fence->Some_0.len() > 0,
        forall|k: int|
            a < k < n ==> !closes(
                (#[trigger] marks[k]).trimmed,
                marks[a].fence->Some_0[0],
                text::blen(marks[a].fence->Some_0),
            ),
    ensures
        n > a ==> claude_md::scan(marks.take(n)).fence == Some(
            (marks[a].fence->Some_0[0], text::blen(marks[a].fence->Some_0)),
        ),
    decreases n,
{
    if n > a {
        assert(marks.take(n).drop_last() =~= marks.take(n - 1));
        assert(marks.take(n).last() == marks[n - 1]);
        if n - 1 > a {
            lemma_in_fence(marks, a, n - 1);
            lemma_closes(
                marks[n - 1].trimmed,
                marks[a].fence->Some_0[0],
                text::blen(marks[a].fence->Some_0),
            );
        }
    }
}

proof fn lemma_of_level(hs: Seq<HeadingView>, level: int)
    ensures
        claude_md::of_level(hs, level) == hs.filter(|h: HeadingView| h.level == level),
    decreases hs.len(),
{
    reveal(Seq::filter);
    if hs.len() > 0 {
        lemma_of_level(hs.drop_last(), level);
    }
}

proof fn lemma_level_at(hs: Seq<HeadingView>, level: int, i: int, j: int) -> (k: int)
    requires
        0 <= i < j <= hs.len(),
        hs[i].level == level,
        j < hs.len() ==> hs[j].level == level,
        forall|m: int| i < m < j ==> (#[trigger] hs[m]).level != level,
    ensures
        0 <= k < claude_md::of_level(hs, level).len(),
        claude_md::of_level(hs, level)[k] == hs[i],
        j < hs.len() ==> k + 1 < claude_md::of_level(hs, level).len() && claude_md::of_level(
            hs,
            level,
        )[k + 1] == hs[j],
        j == hs.len() ==> k + 1 == claude_md::of_level(hs, level).len(),
    decreases hs.len(),
{
    let d = hs.drop_last();
    let last = hs.len() - 1;
    if i == last {
        claude_md::of_level(d, level).len() as int
    } else if j == last {
        assert(d[i] == hs[i]);
        assert forall|m: int| i < m < d.len() implies (#[trigger] d[m]).level != level by {
            assert(d[m] == hs[m]);
        }
        lemma_level_at(d, level, i, d.len() as int)
    } else if j == hs.len() {
        assert(hs[last].level != level);
        assert forall|m: int| i < m < d.len() implies (#[trigger] d[m]).level != level by {
            assert(d[m] == hs[m]);
        }
        lemma_level_at(d, level, i, d.len() as int)
    } else {
        assert(d[i] == hs[i] && d[j] == hs[j]);
        assert forall|m: int| i < m < j implies (#[trigger] d[m]).level != level by {
            assert(d[m] == hs[m]);
        }
        lemma_level_at(d, level, i, j)
    }
}

/// The file is grouped by its headings of the second level where it has any,
/// else by those of the first, else not at all. Every heading of that level
/// opens a section, which goes on up to the next one, or to the end.
pub proof fn lemma_sections(
    path: Seq<char>,
    text: Seq<char>,
    marks: Seq<LineMarks>,
    i: int,
    j: int,
) -> (k: int)
    requires
        marks.len() == claude_md::lines_of(claude_md::unify(text)).len(),
        ({
            let hs = claude_md::headings_of(marks);
            &&& 0 <= i < j <= hs.len()
            &&& hs[i].level == 2 || (hs[i].level == 1 && forall|m: int|
                0 <= m < hs.len() ==> (#[trigger] hs[m]).level != 2)
            &&& j < hs.len() ==> hs[j].level == hs[i].level
            &&& forall|m: int| i < m < j ==> (#[trigger] hs[m]).level != hs[i].level
        }),
    ensures
        ({
            let hs = claude_md::headings_of(marks);
            let r = claude_md::parsed(path, text, marks);
            let s = r.sections[k];
            &&& r.grouping_level == hs[i].level
            &&& 0 <= k < r.sections.len()
            &&& s.heading == hs[i].text
            &&& s.level == hs[i].level
            &&& s.start_line == hs[i].line
            &&& j < hs.len() ==> s.end_line == hs[j].line - 1
            &&& j == hs.len() ==> s.end_line == r.total_lines
            &&& 4 * s.tokens - 3 <= s.bytes <= 4 * s.tokens
        }),
{
    let hs = claude_md::headings_of(marks);
    let g = hs[i].level;
    assert(claude_md::grouping(hs) == g);
    let at = lemma_level_at(hs, g, i, j);
    let n = claude_md::unify(text);
    let lines = claude_md::lines_of(n);
    let of = claude_md::of_level(hs, g);
    let pre = claude_md::preamble(lines, claude_md::is_closed(n), of[0].line);
    let all = claude_md::sections_of(lines, claude_md::is_closed(n), of);
    assert(all[pre.len() + at] == claude_md::section_at(
        lines,
        claude_md::is_closed(n),
        of[at].text,
        of[at].level,
        of[at].line,
        claude_md::section_end(of, at, lines.len() as int),
    ));
    pre.len() + at
}

/// Whether the turn pays for files of that many tokens: its model has a price,
/// and its cache is large enough to hold them.
pub open spec fn pays(turns: Seq<TurnRecord>, priced: Seq<bool>, tokens: int, m: usize) -> bool {
    priced[m as int] && turns[m as int].usage.cache_read >= tokens
}

proof fn lemma_totals(files: Seq<ParsedClaudeMd>)
    ensures
        md_cost::file_tokens(files) == files.fold_left(
            0int,
            |n: int, f: ParsedClaudeMd| n + f.tokens,
        ),
        md_cost::file_bytes(files) == files.fold_left(
            0int,
            |n: int, f: ParsedClaudeMd| n + f.bytes,
        ),
    decreases files.len(),
{
    if files.len() > 0 {
        lemma_totals(files.drop_last());
    }
}

/// The files weigh as many tokens and bytes as they have together, and cost
/// nothing where they have no tokens.
pub proof fn lemma_md_totals(
    r: ClaudeMdAttributionResult,
    files: Seq<ParsedClaudeMd>,
    turns: Seq<TurnRecord>,
    at: Seq<usize>,
    priced: Seq<bool>,
    charged: Seq<bool>,
)
    requires
        md_cost::is_attribution(r, files, turns, at, priced, charged),
    ensures
        ({
            let tokens = files.fold_left(0int, |n: int, f: ParsedClaudeMd| n + f.tokens);
            let bytes = files.fold_left(0int, |n: int, f: ParsedClaudeMd| n + f.bytes);
            &&& r.total_tokens == tokens
            &&& tokens > 0 ==> r.total_bytes == bytes
            &&& tokens == 0 ==> r.session_costs@.len() == 0 && r.section_costs@.len() == 0
        }),
{
    lemma_totals(files);
}

/// Every turn that is looked at counts toward its session, and pays there if
/// and only if it has a price and a cache that can hold the files.
pub proof fn lemma_md_turns(
    r: ClaudeMdAttributionResult,
    files: Seq<ParsedClaudeMd>,
    turns: Seq<TurnRecord>,
    at: Seq<usize>,
    priced: Seq<bool>,
    charged: Seq<bool>,
    k: int,
) -> (i: int)
    requires
        md_cost::is_attribution(r, files, turns, at, priced, charged),
        r.total_tokens > 0,
        at.len() <= usize::MAX,
        0 <= k < at.len(),
    ensures
        0 <= i < r.session_costs@.len(),
        r.session_costs@[i].session_id@ == turns[at[k] as int].session_id@,
        r.session_costs@[i].cost_turns@.contains(at[k]) <==> pays(
            turns,
            priced,
            r.total_tokens as int,
            at[k],
        ),
        forall|j: int|
            0 <= j < r.session_costs@[i].cost_turns@.len() ==> {
                let m = #[trigger] r.session_costs@[i].cost_turns@[j];
                &&& pays(turns, priced, r.total_tokens as int, m)
                &&& at.contains(m)
                &&& turns[m as int].session_id@ == r.session_costs@[i].session_id@
            },
        r.session_costs@[i].riding_turns == r.session_costs@[i].cost_turns@.len(),
        r.session_costs@[i].total_turns == at.filter(
            |m: usize| turns[m as int].session_id@ == turns[at[k] as int].session_id@,
        ).len(),
{
    let keys = md_cost::keys_at(turns, at);
    let id = turns[at[k] as int].session_id@;
    assert(keys[k] == id);
    groups::lemma_first_seen(keys);
    groups::lemma_positions(keys, id);
    assert(groups::first_seen(keys).contains(id));
    let g = choose|g: int|
        0 <= g < groups::first_seen(keys).len() && groups::first_seen(keys)[g] == id;
    let ps = groups::positions(keys, id);
    assert(groups::groups_of(keys)[g] == (id, ps));
    let own = ps.map_values(|k: usize| at[k as int]);
    let members = sessions::by_turn_index(turns, own);
    let s = md_cost::sessions_at(turns, at);
    assert(s[g] == (id, members));
    order::lemma_sort_multiset(own, sessions::earlier(turns));
    order::lemma_sort_inside(own, sessions::earlier(turns));
    own.to_multiset_ensures();
    members.to_multiset_ensures();
    assert(ps.contains(k as usize));
    let q = choose|q: int| 0 <= q < ps.len() && ps[q] == k as usize;
    assert(own[q] == at[k]);
    assert(own.contains(at[k]));
    assert(members.contains(at[k])) by {
        assert(members.to_multiset().count(at[k]) == own.to_multiset().count(at[k]));
    }
    let tokens = md_cost::file_tokens(files);
    let ride = |m: usize| md_cost::rides(turns, priced, tokens, m);
    laws::streaks::lemma_pick_both(members, ride, at[k]);
    let row = r.session_costs@[g];
    assert(md_cost::is_session_cost(row, s[g], turns, priced, tokens));
    assert forall|j: int| 0 <= j < row.cost_turns@.len() implies {
        let m = #[trigger] row.cost_turns@[j];
        &&& pays(turns, priced, r.total_tokens as int, m)
        &&& at.contains(m)
        &&& turns[m as int].session_id@ == row.session_id@
    } by {
        let m = row.cost_turns@[j];
        assert(row.cost_turns@.contains(m));
        laws::streaks::lemma_pick_both(members, ride, m);
        let x = choose|x: int| 0 <= x < members.len() && members[x] == m;
        assert(own.contains(members[x]));
        let y = choose|y: int| 0 <= y < own.len() && own[y] == m;
        assert(own[y] == at[ps[y] as int]);
        assert(keys[ps[y] as int] == id);
    }
    lemma_positions_count(turns, at, id);
    assert((|m: usize| turns[m as int].session_id@ == id) =~= (|m: usize|
        turns[m as int].session_id@ == turns[at[k] as int].session_id@));
    g
}

proof fn lemma_positions_count(turns: Seq<TurnRecord>, at: Seq<usize>, id: Seq<char>)
    requires
        at.len() <= usize::MAX,
    ensures
        groups::positions(md_cost::keys_at(turns, at), id).len() == at.filter(
            |m: usize| turns[m as int].session_id@ == id,
        ).len(),
    decreases at.len(),
{
    reveal(Seq::filter);
    if at.len() > 0 {
        let d = at.drop_last();
        lemma_positions_count(turns, d, id);
        assert(md_cost::keys_at(turns, at).drop_last() =~= md_cost::keys_at(turns, d));
    }
}

proof fn lemma_section_row(files: Seq<ParsedClaudeMd>, f: int, j: int) -> (k: int)
    requires
        files.len() <= usize::MAX,
        0 <= f < files.len(),
        0 <= j < files[f].sections@.len(),
    ensures
        0 <= k < md_cost::all_sections(files).len(),
        md_cost::all_sections(files)[k] == (SectionCost {
            file: f as usize,
            section: j as usize,
            level: files[f].sections@[j].level,
            bytes: files[f].sections@[j].bytes,
        }),
    decreases files.len(),
{
    let d = files.drop_last();
    if f < d.len() {
        assert(d[f] == files[f]);
        lemma_section_row(d, f, j)
    } else {
        md_cost::all_sections(d).len() + j
    }
}

/// Every section of every file has a row with its level and its bytes.
pub proof fn lemma_md_sections(
    r: ClaudeMdAttributionResult,
    files: Seq<ParsedClaudeMd>,
    turns: Seq<TurnRecord>,
    at: Seq<usize>,
    priced: Seq<bool>,
    charged: Seq<bool>,
    f: int,
    j: int,
) -> (k: int)
    requires
        md_cost::is_attribution(r, files, turns, at, priced, charged),
        r.total_tokens > 0,
        files.len() <= usize::MAX,
        0 <= f < files.len(),
        0 <= j < files[f].sections@.len(),
    ensures
        0 <= k < r.section_costs@.len(),
        r.section_costs@[k].file == f,
        r.section_costs@[k].section == j as usize,
        r.section_costs@[k].level == files[f].sections@[j].level,
        r.section_costs@[k].bytes == files[f].sections@[j].bytes,
{
    let all = md_cost::all_sections(files);
    let x = lemma_section_row(files, f, j);
    let paid = md_cost::file_bytes(files) > 0 && md_cost::is_charged(
        turns,
        at,
        priced,
        charged,
        md_cost::file_tokens(files),
    );
    md_cost::lemma_ranked_sections(files, paid);
    let rows = r.section_costs@;
    all.to_multiset_ensures();
    rows.to_multiset_ensures();
    assert(all.contains(all[x]));
    assert(rows.to_multiset().count(all[x]) == all.to_multiset().count(all[x]));
    assert(rows.contains(all[x]));
    choose|k: int| 0 <= k < rows.len() && rows[k] == all[x]
}

/// How many of the turns are of the model.
pub open spec fn turns_of_model(turns: Seq<TurnRecord>, at: Seq<usize>, model: Seq<char>) -> nat {
    at.filter(|m: usize| turns[m as int].model@ == model).len()
}

proof fn lemma_model_count(turns: Seq<TurnRecord>, at: Seq<usize>, model: Seq<char>)
    requires
        at.len() <= usize::MAX,
    ensures
        groups::positions(md_cost::models_of(turns, at), model).len() == turns_of_model(
            turns,
            at,
            model,
        ),
    decreases at.len(),
{
    reveal(Seq::filter);
    if at.len() > 0 {
        let d = at.drop_last();
        lemma_model_count(turns, d, model);
        assert(md_cost::models_of(turns, at).drop_last() =~= md_cost::models_of(turns, d));
    }
}

proof fn lemma_largest(g: Seq<(Seq<char>, Seq<usize>)>)
    ensures
        forall|i: int| 0 <= i < g.len() ==> (#[trigger] g[i]).1.len() <= md_cost::largest(g).1,
        g.len() > 0 ==> exists|i: int|
            0 <= i < g.len() && (#[trigger] g[i]).0 == md_cost::largest(g).0 && g[i].1.len()
                == md_cost::largest(g).1,
        g.len() == 0 ==> md_cost::largest(g).0.len() == 0,
        md_cost::largest(g).1 >= -1,
    decreases g.len(),
{
    if g.len() > 0 {
        let d = g.drop_last();
        lemma_largest(d);
        assert forall|i: int| 0 <= i < g.len() implies (#[trigger] g[i]).1.len()
            <= md_cost::largest(g).1 by {
            if i < d.len() {
                assert(d[i] == g[i]);
            }
        }
        if g.last().1.len() > md_cost::largest(d).1 {
            assert(g[g.len() - 1].0 == md_cost::largest(g).0);
        } else {
            let i = choose|i: int|
                0 <= i < d.len() && (#[trigger] d[i]).0 == md_cost::largest(d).0 && d[i].1.len()
                    == md_cost::largest(d).1;
            assert(g[i] == d[i]);
        }
    }
}

/// A session goes by the model of the most turns that have a price.
pub proof fn lemma_md_model(
    r: ClaudeMdAttributionResult,
    files: Seq<ParsedClaudeMd>,
    turns: Seq<TurnRecord>,
    at: Seq<usize>,
    priced: Seq<bool>,
    charged: Seq<bool>,
    i: int,
    other: Seq<char>,
)
    requires
        md_cost::is_attribution(r, files, turns, at, priced, charged),
        r.total_tokens > 0,
        md_cost::sessions_at(turns, at)[i].1.len() <= usize::MAX,
        0 <= i < r.session_costs@.len(),
    ensures
        ({
            let own = md_cost::sessions_at(turns, at)[i].1.filter(|m: usize| priced[m as int]);
            &&& turns_of_model(turns, own, other) <= turns_of_model(
                turns,
                own,
                r.session_costs@[i].model@,
            )
            &&& own.len() > 0 ==> turns_of_model(turns, own, r.session_costs@[i].model@) > 0
            &&& own.len() == 0 ==> r.session_costs@[i].model@.len() == 0
        }),
{
    let s = md_cost::sessions_at(turns, at)[i];
    let row = r.session_costs@[i];
    assert(md_cost::is_session_cost(row, s, turns, priced, md_cost::file_tokens(files)));
    let p = |m: usize| priced[m as int];
    laws::edits::lemma_pick_is_filter(s.1, p, p);
    let own = s.1.filter(p);
    assert(own == md_cost::priced_turns(s.1, priced));
    s.1.lemma_filter_len(p);
    lemma_model_of(turns, own, row.model@, other);
}

proof fn lemma_model_of(
    turns: Seq<TurnRecord>,
    own: Seq<usize>,
    model: Seq<char>,
    other: Seq<char>,
)
    requires
        own.len() <= usize::MAX,
        model == md_cost::dominant_model(md_cost::models_of(turns, own)),
    ensures
        turns_of_model(turns, own, other) <= turns_of_model(turns, own, model),
        own.len() > 0 ==> turns_of_model(turns, own, model) > 0,
        own.len() == 0 ==> model.len() == 0,
{
    let models = md_cost::models_of(turns, own);
    let gs = groups::groups_of(models);
    lemma_largest(gs);
    groups::lemma_first_seen(models);
    groups::lemma_positions(models, other);
    groups::lemma_positions(models, model);
    lemma_model_count(turns, own, other);
    lemma_model_count(turns, own, model);
    if gs.len() > 0 {
        let g = choose|g: int|
            0 <= g < gs.len() && (#[trigger] gs[g]).0 == md_cost::largest(gs).0 && gs[g].1.len()
                == md_cost::largest(gs).1;
        assert(gs[g] == (model, groups::positions(models, model)));
        assert(groups::first_seen(models)[g] == model);
        assert(groups::first_seen(models).contains(model));
    }
    if models.contains(other) {
        assert(groups::first_seen(models).contains(other));
        let h = choose|h: int|
            0 <= h < groups::first_seen(models).len() && groups::first_seen(models)[h] == other;
        assert(gs[h] == (other, groups::positions(models, other)));
    }
    if own.len() > 0 {
        assert(models.contains(models[0]));
        assert(groups::first_seen(models).contains(models[0]));
    }
}

/// A file counts toward the turns of the harnesses that read it, in order.
pub proof fn lemma_turns_for(turns: Seq<TurnRecord>, applies_to: Seq<SourceKind>, m: usize)
    requires
        turns.len() <= usize::MAX,
    ensures
        overhead::turns_for(turns, applies_to).contains(m) <==> m < turns.len() && exists|i: int|
            0 <= i < applies_to.len() && #[trigger] applies_to[i] == turns[m as int].source,
{
    let all = order::positions_up_to(turns.len());
    let p = |i: usize| applies_to.contains(turns[i as int].source);
    laws::streaks::lemma_pick_both(all, p, m);
    if m < turns.len() {
        assert(all[m as int] == m);
    }
}

/// The turns that pay for some file are counted once each.
pub proof fn lemma_riders_count(
    files: Seq<ParsedOverheadFile>,
    turns: Seq<TurnRecord>,
    priced: Seq<bool>,
    n: nat,
)
    requires
        n <= usize::MAX,
    ensures
        overhead::riders(files, turns, priced, n) == order::positions_up_to(n).filter(
            |m: usize| pays_for_some(files, turns, priced, m),
        ).len(),
    decreases n,
{
    reveal(Seq::filter);
    let all = order::positions_up_to(n);
    if n > 0 {
        let k = (n - 1) as nat;
        lemma_riders_count(files, turns, priced, k);
        assert(all.drop_last() =~= order::positions_up_to(k));
        let m = (n - 1) as usize;
        assert(all.last() == m);
        if overhead::is_rider(files, turns, priced, m) {
            let i = choose|i: int|
                0 <= i < files.len() && overhead::rides_in(
                    #[trigger] files[i],
                    turns,
                    priced,
                    m,
                );
            assert(pays_for_file(files[i], turns, priced, m));
        }
        if pays_for_some(files, turns, priced, m) {
            let i = choose|i: int|
                0 <= i < files.len() && pays_for_file(#[trigger] files[i], turns, priced, m);
            assert(overhead::rides_in(files[i], turns, priced, m));
        }
    }
}

/// Whether the turn is one of a harness that reads the file, and pays for it.
pub open spec fn pays_for_file(
    f: ParsedOverheadFile,
    turns: Seq<TurnRecord>,
    priced: Seq<bool>,
    m: usize,
) -> bool {
    &&& f.parsed.tokens > 0
    &&& exists|i: int|
        0 <= i < f.file.applies_to@.len() && #[trigger] f.file.applies_to@[i]
            == turns[m as int].source
    &&& pays(turns, priced, f.parsed.tokens as int, m)
}

/// Whether the turn pays for one of the files.
pub open spec fn pays_for_some(
    files: Seq<ParsedOverheadFile>,
    turns: Seq<TurnRecord>,
    priced: Seq<bool>,
    m: usize,
) -> bool {
    exists|i: int|
        0 <= i < files.len() && pays_for_file(#[trigger] files[i], turns, priced, m)
}

/// A diff shows a path without the slashes that it begins with.
pub proof fn lemma_display_path(slashes: Seq<char>, rest: Seq<char>)
    requires
        forall|i: int| 0 <= i < slashes.len() ==> #[trigger] slashes[i] == '/',
        rest.len() > 0 ==> rest[0] != '/',
    ensures
        md_cost::without_slashes(slashes + rest) == rest,
    decreases slashes.len(),
{
    if slashes.len() == 0 {
        assert(slashes + rest =~= rest);
    } else {
        assert(slashes[0] == '/');
        let d = slashes.drop_first();
        assert((slashes + rest).drop_first() =~= d + rest);
        assert forall|i: int| 0 <= i < d.len() implies #[trigger] d[i] == '/' by {
            assert(d[i] == slashes[i + 1]);
        }
        lemma_display_path(d, rest);
    }
}

/// A carriage return before a line end is left out, and nothing else.
pub proof fn lemma_unify(a: Seq<char>, b: Seq<char>)
    requires
        forall|i: int| 0 <= i < a.len() ==> #[trigger] a[i] != '\r',
    ensures
        claude_md::unify(a + b) == a + claude_md::unify(b),
        claude_md::unify(seq!['\r', '\n'] + b) == seq!['\n'] + claude_md::unify(b),
    decreases a.len(),
{
    let s = seq!['\r', '\n'] + b;
    assert(s.skip(2) =~= b);
    if a.len() == 0 {
        assert(a + b =~= b);
        assert(a + claude_md::unify(b) =~= claude_md::unify(b));
    } else {
        let d = a.drop_first();
        assert forall|i: int| 0 <= i < d.len() implies #[trigger] d[i] != '\r' by {
            assert(d[i] == a[i + 1]);
        }
        lemma_unify(d, b);
        assert(a[0] != '\r');
        assert((a + b).skip(1) =~= d + b);
        assert(a =~= seq![a[0]] + d);
        assert(seq![a[0]] + (d + claude_md::unify(b)) =~= a + claude_md::unify(b));
    }
}

} // verus!
