//! Instruction files in Markdown: their sections, and what they cost a session.

use crate::groups;
use crate::outside;
use crate::text;
use crate::tokens;
use vstd::prelude::*;

verus! {

/// One section of an instruction file.
#[derive(Debug, Clone, PartialEq)]
pub struct MarkdownSection {
    pub heading: String,
    /// 0 for the preamble, 1 to 6 for `#` to `######`.
    pub level: u32,
    /// Counted from 1.
    pub start_line: u64,
    /// Counted from 1, inclusive.
    pub end_line: u64,
    pub bytes: u64,
    pub tokens: u64,
}

/// An instruction file cut into its sections.
#[derive(Debug, Clone, PartialEq)]
pub struct ParsedClaudeMd {
    pub path: String,
    pub total_lines: u64,
    pub bytes: u64,
    pub tokens: u64,
    pub sections: Vec<MarkdownSection>,
    /// 1 or 2; 0 where there is no heading.
    pub grouping_level: u32,
}

/// What a [`MarkdownSection`] says.
#[verifier::ext_equal]
pub struct SectionView {
    pub heading: Seq<char>,
    pub level: int,
    pub start_line: int,
    pub end_line: int,
    pub bytes: int,
    pub tokens: int,
}

impl View for MarkdownSection {
    type V = SectionView;

    open spec fn view(&self) -> SectionView {
        SectionView {
            heading: self.heading@,
            level: self.level as int,
            start_line: self.start_line as int,
            end_line: self.end_line as int,
            bytes: self.bytes as int,
            tokens: self.tokens as int,
        }
    }
}

/// What a [`ParsedClaudeMd`] says.
#[verifier::ext_equal]
pub struct ParsedView {
    pub path: Seq<char>,
    pub total_lines: int,
    pub bytes: int,
    pub tokens: int,
    pub sections: Seq<SectionView>,
    pub grouping_level: int,
}

impl View for ParsedClaudeMd {
    type V = ParsedView;

    open spec fn view(&self) -> ParsedView {
        ParsedView {
            path: self.path@,
            total_lines: self.total_lines as int,
            bytes: self.bytes as int,
            tokens: self.tokens as int,
            sections: section_views(self.sections@),
            grouping_level: self.grouping_level as int,
        }
    }
}

/// What each section says.
pub open spec fn section_views(s: Seq<MarkdownSection>) -> Seq<SectionView> {
    s.map_values(|x: MarkdownSection| x@)
}

/// `s` with every carriage return that a line feed follows left out.
pub open spec fn unify(s: Seq<char>) -> Seq<char>
    decreases s.len(),
{
    if s.len() == 0 {
        s
    } else if s.len() > 1 && s[0] == '\r' && s[1] == '\n' {
        seq!['\n'] + unify(s.skip(2))
    } else {
        seq![s[0]] + unify(s.skip(1))
    }
}

/// Whether the last line is closed by a line feed.
pub open spec fn is_closed(n: Seq<char>) -> bool {
    n.len() > 0 && n.last() == '\n'
}

/// `n` without the line feed that closes its last line.
pub open spec fn body_of(n: Seq<char>) -> Seq<char> {
    if is_closed(n) {
        n.drop_last()
    } else {
        n
    }
}

/// The lines of `n`, as an editor shows them.
pub open spec fn lines_of(n: Seq<char>) -> Seq<Seq<char>> {
    if body_of(n).len() == 0 {
        Seq::empty()
    } else {
        text::split_on(body_of(n), '\n')
    }
}

/// Bytes of line `i` with the line feed behind it.
pub open spec fn weight(lines: Seq<Seq<char>>, closed: bool, i: int) -> nat {
    text::blen(lines[i]) + (if i + 1 == lines.len() && !closed {
        0nat
    } else {
        1nat
    })
}

/// Bytes of the lines from `lo` up to `hi`, counted from 0.
pub open spec fn span_bytes(lines: Seq<Seq<char>>, closed: bool, lo: int, hi: int) -> nat
    decreases hi - lo,
{
    if hi <= lo {
        0
    } else {
        span_bytes(lines, closed, lo, hi - 1) + weight(lines, closed, hi - 1)
    }
}

proof fn lemma_span_same(
    a: Seq<Seq<char>>,
    b: Seq<Seq<char>>,
    ca: bool,
    cb: bool,
    lo: int,
    hi: int,
)
    requires
        forall|i: int| lo <= i < hi ==> #[trigger] weight(a, ca, i) == weight(b, cb, i),
    ensures
        span_bytes(a, ca, lo, hi) == span_bytes(b, cb, lo, hi),
    decreases hi - lo,
{
    if lo < hi {
        lemma_span_same(a, b, ca, cb, lo, hi - 1);
        assert(weight(a, ca, hi - 1) == weight(b, cb, hi - 1));
    }
}

proof fn lemma_span_join(lines: Seq<Seq<char>>, closed: bool, lo: int, mid: int, hi: int)
    requires
        lo <= mid <= hi,
    ensures
        span_bytes(lines, closed, lo, hi) == span_bytes(lines, closed, lo, mid) + span_bytes(
            lines,
            closed,
            mid,
            hi,
        ),
    decreases hi - mid,
{
    if mid < hi {
        lemma_span_join(lines, closed, lo, mid, hi - 1);
    }
}

proof fn lemma_split_bytes(s: Seq<char>)
    ensures
        text::split_on(s, '\n').len() > 0,
        span_bytes(text::split_on(s, '\n'), false, 0, text::split_on(s, '\n').len() as int)
            == text::blen(s),
    decreases s.len(),
{
    let r = text::split_on(s, '\n');
    if s.len() == 0 {
        assert(r =~= seq![Seq::<char>::empty()]);
        assert(span_bytes(r, false, 0, 0) == 0);
        assert(weight(r, false, 0) == 0);
        assert(span_bytes(r, false, 0, 1) == 0);
    } else {
        let p = s.drop_last();
        let q = text::split_on(p, '\n');
        let k = q.len() as int;
        lemma_split_bytes(p);
        assert(s =~= p.push(s.last()));
        text::lemma_blen_push(p, s.last());
        assert(span_bytes(q, false, 0, k) == span_bytes(q, false, 0, k - 1) + weight(
            q,
            false,
            k - 1,
        ));
        assert forall|i: int| 0 <= i < k - 1 implies #[trigger] weight(q, false, i) == weight(
            r,
            false,
            i,
        ) by {}
        lemma_span_same(q, r, false, false, 0, k - 1);
        if s.last() == '\n' {
            assert(r[k - 1] == q[k - 1]);
            assert(weight(r, false, k - 1) == weight(q, false, k - 1) + 1);
            assert(weight(r, false, k) == 0);
            assert(span_bytes(r, false, 0, k + 1) == span_bytes(r, false, 0, k) + weight(
                r,
                false,
                k,
            ));
            assert(span_bytes(r, false, 0, k) == span_bytes(r, false, 0, k - 1) + weight(
                r,
                false,
                k - 1,
            ));
        } else {
            text::lemma_blen_push(q.last(), s.last());
            assert(r.len() == k);
            assert(weight(r, false, k - 1) == weight(q, false, k - 1) + text::blen(
                seq![s.last()],
            ));
            assert(span_bytes(r, false, 0, k) == span_bytes(r, false, 0, k - 1) + weight(
                r,
                false,
                k - 1,
            ));
        }
    }
}

/// The lines with their line feeds are all the bytes of the file.
pub proof fn lemma_lines_cover(n: Seq<char>)
    ensures
        lines_of(n).len() > 0 ==> span_bytes(lines_of(n), is_closed(n), 0, lines_of(n).len() as int)
            == text::blen(n),
{
    let b = body_of(n);
    let lines = lines_of(n);
    let k = lines.len() as int;
    if b.len() > 0 {
        lemma_split_bytes(b);
        if is_closed(n) {
            assert(n =~= b.push('\n'));
            text::lemma_blen_push(b, '\n');
            assert forall|i: int| 0 <= i < k - 1 implies #[trigger] weight(lines, false, i)
                == weight(lines, true, i) by {}
            lemma_span_same(lines, lines, false, true, 0, k - 1);
            assert(span_bytes(lines, false, 0, k) == span_bytes(lines, false, 0, k - 1) + weight(
                lines,
                false,
                k - 1,
            ));
            assert(span_bytes(lines, true, 0, k) == span_bytes(lines, true, 0, k - 1) + weight(
                lines,
                true,
                k - 1,
            ));
        }
    }
}

/// What the scan of one line found.
pub struct LineScan {
    /// The line without white space at its ends.
    pub trimmed: String,
    /// The run of backticks or tildes that opens a code fence.
    pub fence: Option<String>,
    /// The run of `#` and the text of a heading.
    pub heading: Option<(String, String)>,
}

/// What a [`LineScan`] says.
#[verifier::ext_equal]
pub struct LineMarks {
    pub trimmed: Seq<char>,
    pub fence: Option<Seq<char>>,
    pub heading: Option<(Seq<char>, Seq<char>)>,
}

impl View for LineScan {
    type V = LineMarks;

    open spec fn view(&self) -> LineMarks {
        LineMarks {
            trimmed: self.trimmed@,
            fence: match self.fence {
                Some(f) => Some(f@),
                None => None,
            },
            heading: match self.heading {
                Some(h) => Some((h.0@, h.1@)),
                None => None,
            },
        }
    }
}

/// What each scan says.
pub open spec fn marks_of(s: Seq<LineScan>) -> Seq<LineMarks> {
    s.map_values(|x: LineScan| x@)
}

/// A heading of the file.
pub struct HeadingInfo {
    pub line: u64,
    pub level: u32,
    pub text: String,
}

/// What a [`HeadingInfo`] says.
#[verifier::ext_equal]
pub struct HeadingView {
    pub line: int,
    pub level: int,
    pub text: Seq<char>,
}

impl View for HeadingInfo {
    type V = HeadingView;

    open spec fn view(&self) -> HeadingView {
        HeadingView { line: self.line as int, level: self.level as int, text: self.text@ }
    }
}

/// What each heading says.
pub open spec fn heading_views(s: Seq<HeadingInfo>) -> Seq<HeadingView> {
    s.map_values(|x: HeadingInfo| x@)
}

/// How often `ch` stands at the start of `s`.
pub open spec fn lead_run(s: Seq<char>, ch: char) -> nat
    decreases s.len(),
{
    if s.len() > 0 && s[0] == ch {
        1 + lead_run(s.drop_first(), ch)
    } else {
        0
    }
}

/// Whether `s` closes a fence of `min_len` times `ch`: at least as many of
/// them, and behind them nothing but white space.
pub open spec fn closes_fence(s: Seq<char>, ch: char, min_len: nat) -> bool {
    lead_run(s, ch) >= min_len && text::all_space(s.skip(lead_run(s, ch) as int))
}

/// Where a scan through the lines stands: the open fence with its length, and
/// the headings so far.
#[verifier::ext_equal]
pub struct ScanState {
    pub fence: Option<(char, nat)>,
    pub found: Seq<HeadingView>,
}

/// One line further, which is line `line`.
pub open spec fn scan_step(st: ScanState, m: LineMarks, line: int) -> ScanState {
    match st.fence {
        Some((ch, len)) => if closes_fence(m.trimmed, ch, len) {
            ScanState { fence: None, found: st.found }
        } else {
            st
        },
        None => match m.fence {
            Some(run) => ScanState {
                fence: if run.len() > 0 {
                    Some((run[0], text::blen(run)))
                } else {
                    None
                },
                found: st.found,
            },
            None => match m.heading {
                Some((hashes, body)) => ScanState {
                    fence: None,
                    found: st.found.push(
                        HeadingView {
                            line,
                            level: (text::blen(hashes) as u32) as int,
                            text: hashes.push(' ') + body,
                        },
                    ),
                },
                None => st,
            },
        },
    }
}

/// The scan through all lines.
pub open spec fn scan(marks: Seq<LineMarks>) -> ScanState
    decreases marks.len(),
{
    if marks.len() == 0 {
        ScanState { fence: None, found: Seq::empty() }
    } else {
        scan_step(scan(marks.drop_last()), marks.last(), marks.len() as int)
    }
}

/// The headings outside of code fences.
pub open spec fn headings_of(marks: Seq<LineMarks>) -> Seq<HeadingView> {
    scan(marks).found
}

/// The headings stand on lines of the file, one below the other.
pub proof fn lemma_heading_lines(marks: Seq<LineMarks>)
    ensures
        forall|i: int|
            0 <= i < headings_of(marks).len() ==> 1 <= (#[trigger] headings_of(marks)[i]).line
                <= marks.len(),
        forall|i: int, j: int|
            0 <= i < j < headings_of(marks).len() ==> (#[trigger] headings_of(marks)[i]).line < (
            #[trigger] headings_of(marks)[j]).line,
    decreases marks.len(),
{
    if marks.len() > 0 {
        lemma_heading_lines(marks.drop_last());
        let p = headings_of(marks.drop_last());
        let h = headings_of(marks);
        assert(h == p || (h.len() == p.len() + 1 && h.drop_last() =~= p && h.last().line
            == marks.len()));
        assert forall|i: int| 0 <= i < h.len() implies 1 <= (#[trigger] h[i]).line
            <= marks.len() by {
            if i < p.len() {
                assert(h[i] == p[i]);
            }
        }
        assert forall|i: int, j: int| 0 <= i < j < h.len() implies (#[trigger] h[i]).line < (
        #[trigger] h[j]).line by {
            assert(h[i] == p[i]);
            if j < p.len() {
                assert(h[j] == p[j]);
            }
        }
    }
}

fn matches_close_fence(s: &str, ch: char, min_len: usize) -> (r: bool)
    ensures
        r == closes_fence(s@, ch, min_len as nat),
{
    let cs = text::chars_of(s);
    let mut run: usize = 0;
    assert(cs@.skip(0) =~= cs@);
    while run < cs.len() && cs[run] == ch
        invariant
            run <= cs@.len(),
            lead_run(cs@, ch) == run + lead_run(cs@.skip(run as int), ch),
        ensures
            run <= cs@.len(),
            lead_run(cs@, ch) == run,
        decreases cs@.len() - run,
    {
        assert(cs@.skip(run as int).drop_first() =~= cs@.skip(run + 1));
        assert(cs@.skip(run as int)[0] == cs@[run as int]);
        run = run + 1;
    }
    if run < min_len {
        return false;
    }
    let ghost rest = cs@.skip(run as int);
    let mut i: usize = run;
    while i < cs.len()
        invariant
            run <= i <= cs@.len(),
            cs@ == s@,
            lead_run(s@, ch) == run,
            rest == cs@.skip(run as int),
            forall|k: int| 0 <= k < i - run ==> text::is_space(#[trigger] rest[k]),
        decreases cs@.len() - i,
    {
        if !text::is_whitespace(cs[i]) {
            assert(rest[i - run] == cs@[i as int]);
            assert(!text::is_space(rest[i - run]));
            return false;
        }
        assert(rest[i - run] == cs@[i as int]);
        i = i + 1;
    }
    true
}

/// The headings outside of code fences, given the scan of every line.
pub fn headings_from_scans(scans: &Vec<LineScan>) -> (r: Vec<HeadingInfo>)
    ensures
        heading_views(r@) == headings_of(marks_of(scans@)),
{
    let mut out: Vec<HeadingInfo> = Vec::new();
    let mut fence: Option<(char, usize)> = None;
    let ghost marks = marks_of(scans@);
    let mut i: usize = 0;
    assert(marks.take(0) =~= Seq::<LineMarks>::empty());
    assert(heading_views(out@) =~= Seq::<HeadingView>::empty());
    while i < scans.len()
        invariant
            i <= scans@.len(),
            marks == marks_of(scans@),
            heading_views(out@) == scan(marks.take(i as int)).found,
            fence is Some == scan(marks.take(i as int)).fence is Some,
            fence is Some ==> fence->Some_0.0 == scan(marks.take(i as int)).fence->Some_0.0
                && fence->Some_0.1 == scan(marks.take(i as int)).fence->Some_0.1,
        decreases scans@.len() - i,
    {
        let s = &scans[i];
        let ghost st = scan(marks.take(i as int));
        assert(marks.take(i + 1).drop_last() =~= marks.take(i as int));
        assert(marks.take(i + 1).last() == s@);
        match fence {
            Some((ch, len)) => {
                if matches_close_fence(s.trimmed.as_str(), ch, len) {
                    fence = None;
                }
            },
            None => {
                match &s.fence {
                    Some(run) => {
                        let cs = text::chars_of(run.as_str());
                        if cs.len() > 0 {
                            fence = Some((cs[0], text::byte_len(run.as_str())));
                        }
                    },
                    None => {
                        match &s.heading {
                            Some(h) => {
                                let level: u32 = text::byte_len(h.0.as_str()) as u32;
                                let mut t = h.0.clone();
                                t.push(' ');
                                text::push_str(&mut t, h.1.as_str());
                                let ghost before = heading_views(out@);
                                out.push(HeadingInfo { line: i as u64 + 1, level, text: t });
                                assert(heading_views(out@) =~= before.push(out@.last()@));
                            },
                            None => {},
                        }
                    },
                }
            },
        }
        i = i + 1;
    }
    assert(marks.take(i as int) =~= marks);
    out
}

/// The pattern of the run that opens a code fence.
pub open spec fn fence_pattern() -> Seq<char> {
    "^(`{3,}|~{3,})"@
}

/// The pattern of a heading: its run of `#`, and its text.
pub open spec fn heading_pattern() -> Seq<char> {
    "^(#{1,6})\\s+(.*\\S)\\s*$"@
}

/// Group `k` of a match.
pub open spec fn group_at(groups: Option<Seq<Option<Seq<char>>>>, k: int) -> Option<Seq<char>> {
    match groups {
        Some(g) => if k < g.len() {
            g[k]
        } else {
            None
        },
        None => None,
    }
}

/// The scan of one line.
pub open spec fn marks_of_line(line: Seq<char>) -> LineMarks {
    let h = outside::regex_groups(heading_pattern(), line);
    LineMarks {
        trimmed: text::trim_of(line),
        fence: group_at(outside::regex_groups(fence_pattern(), text::trim_of(line)), 1),
        heading: match (group_at(h, 1), group_at(h, 2)) {
            (Some(a), Some(b)) => Some((a, b)),
            _ => None,
        },
    }
}

fn take_group(groups: &Option<Vec<Option<String>>>, k: usize) -> (r: Option<String>)
    ensures
        (match r {
            Some(s) => Some(s@),
            None => None,
        }) == group_at(
            (match *groups {
                Some(g) => Some(outside::group_views(g@)),
                None => None,
            }),
            k as int,
        ),
{
    match groups {
        Some(g) => if k < g.len() {
            g[k].clone()
        } else {
            None
        },
        None => None,
    }
}

/// Scans one line.
fn scan_line(line: &str) -> (r: LineScan)
    ensures
        r@ == marks_of_line(line@),
{
    let trimmed = text::trim(line);
    let f = outside::regex_captures("^(`{3,}|~{3,})", trimmed.as_str());
    let h = outside::regex_captures("^(#{1,6})\\s+(.*\\S)\\s*$", line);
    let fence = take_group(&f, 1);
    let heading = match (take_group(&h, 1), take_group(&h, 2)) {
        (Some(a), Some(b)) => Some((a, b)),
        _ => None,
    };
    LineScan { trimmed, fence, heading }
}

/// The headings of the lines.
pub fn find_headings(lines: &Vec<String>) -> (r: Vec<HeadingInfo>)
    ensures
        heading_views(r@) == headings_of(
            text::views(lines@).map_values(|l: Seq<char>| marks_of_line(l)),
        ),
{
    let scans = scan_lines(lines);
    headings_from_scans(&scans)
}

/// Scans every line.
fn scan_lines(lines: &Vec<String>) -> (r: Vec<LineScan>)
    ensures
        marks_of(r@) == text::views(lines@).map_values(|l: Seq<char>| marks_of_line(l)),
{
    let mut out: Vec<LineScan> = Vec::new();
    let mut i: usize = 0;
    while i < lines.len()
        invariant
            i <= lines@.len(),
            out@.len() == i,
            forall|k: int| 0 <= k < i ==> (#[trigger] out@[k])@ == marks_of_line(lines@[k]@),
        decreases lines@.len() - i,
    {
        out.push(scan_line(lines[i].as_str()));
        i = i + 1;
    }
    assert(marks_of(out@) =~= text::views(lines@).map_values(|l: Seq<char>| marks_of_line(l)));
    out
}

/// The level by which the file is grouped: 2 where it has such a heading, else
/// 1 where it has one, else 0.
pub open spec fn grouping(hs: Seq<HeadingView>) -> int {
    if exists|i: int| 0 <= i < hs.len() && (#[trigger] hs[i]).level == 2 {
        2
    } else if exists|i: int| 0 <= i < hs.len() && (#[trigger] hs[i]).level == 1 {
        1
    } else {
        0
    }
}

/// The headings of one level.
pub open spec fn of_level(hs: Seq<HeadingView>, level: int) -> Seq<HeadingView>
    decreases hs.len(),
{
    if hs.len() == 0 {
        hs
    } else if hs.last().level == level {
        of_level(hs.drop_last(), level).push(hs.last())
    } else {
        of_level(hs.drop_last(), level)
    }
}

/// The section from line `start` to line `end`.
pub open spec fn section_at(
    lines: Seq<Seq<char>>,
    closed: bool,
    heading: Seq<char>,
    level: int,
    start: int,
    end: int,
) -> SectionView {
    let bytes = span_bytes(lines, closed, start - 1, end) as int;
    SectionView {
        heading,
        level,
        start_line: start,
        end_line: end,
        bytes,
        tokens: tokens::tokens_of(bytes),
    }
}

/// The last line of the section that heading `i` opens.
pub open spec fn section_end(hs: Seq<HeadingView>, i: int, total: int) -> int {
    if i + 1 < hs.len() {
        hs[i + 1].line - 1
    } else {
        total
    }
}

/// What stands ahead of the first heading.
pub open spec fn preamble(lines: Seq<Seq<char>>, closed: bool, first: int) -> Seq<SectionView> {
    if first > 1 && span_bytes(lines, closed, 0, first - 1) > 0 {
        seq![section_at(lines, closed, "(preamble)"@, 0, 1, first - 1)]
    } else {
        Seq::empty()
    }
}

/// The sections that the headings `hs` open, behind the preamble.
pub open spec fn sections_of(
    lines: Seq<Seq<char>>,
    closed: bool,
    hs: Seq<HeadingView>,
) -> Seq<SectionView> {
    preamble(lines, closed, hs[0].line) + Seq::new(
        hs.len(),
        |i: int|
            section_at(
                lines,
                closed,
                hs[i].text,
                hs[i].level,
                hs[i].line,
                section_end(hs, i, lines.len() as int),
            ),
    )
}

/// The file `text`, given the scan of each of its lines.
pub open spec fn parsed(path: Seq<char>, text: Seq<char>, marks: Seq<LineMarks>) -> ParsedView {
    let n = unify(text);
    let lines = lines_of(n);
    let bytes = text::blen(n) as int;
    let hs = headings_of(marks);
    let g = grouping(hs);
    ParsedView {
        path,
        total_lines: lines.len() as int,
        bytes,
        tokens: tokens::tokens_of(bytes),
        sections: if g != 0 {
            sections_of(lines, is_closed(n), of_level(hs, g))
        } else if lines.len() > 0 && bytes > 0 {
            seq![
                SectionView {
                    heading: "(preamble)"@,
                    level: 0,
                    start_line: 1,
                    end_line: lines.len() as int,
                    bytes,
                    tokens: tokens::tokens_of(bytes),
                },
            ]
        } else {
            Seq::empty()
        },
        grouping_level: g,
    }
}

proof fn lemma_of_level(hs: Seq<HeadingView>, level: int, total: int)
    requires
        forall|i: int| 0 <= i < hs.len() ==> 1 <= (#[trigger] hs[i]).line <= total,
        forall|i: int, j: int|
            0 <= i < j < hs.len() ==> (#[trigger] hs[i]).line < (#[trigger] hs[j]).line,
    ensures
        forall|i: int|
            0 <= i < of_level(hs, level).len() ==> 1 <= (#[trigger] of_level(hs, level)[i]).line
                <= total && of_level(hs, level)[i].level == level,
        forall|i: int, j: int|
            0 <= i < j < of_level(hs, level).len() ==> (#[trigger] of_level(hs, level)[i]).line < (
            #[trigger] of_level(hs, level)[j]).line,
        hs.len() > 0 ==> forall|i: int|
            0 <= i < of_level(hs, level).len() ==> (#[trigger] of_level(hs, level)[i]).line
                <= hs.last().line,
        (exists|i: int| 0 <= i < hs.len() && (#[trigger] hs[i]).level == level) ==> of_level(
            hs,
            level,
        ).len() > 0,
    decreases hs.len(),
{
    if hs.len() > 0 {
        let p = hs.drop_last();
        lemma_of_level(p, level, total);
        if p.len() > 0 {
            assert(hs[p.len() - 1].line < hs[p.len() as int].line);
        }
        if exists|i: int| 0 <= i < hs.len() && (#[trigger] hs[i]).level == level {
            let i = choose|i: int| 0 <= i < hs.len() && (#[trigger] hs[i]).level == level;
            if i < p.len() {
                assert(p[i].level == level);
            }
        }
    }
}

fn unified(s: &str) -> (r: String)
    ensures
        r@ == unify(s@),
{
    let cs = text::chars_of(s);
    let mut out = String::new();
    let mut i: usize = 0;
    assert(cs@.skip(0) =~= cs@);
    assert(out@ + unify(cs@) =~= unify(cs@));
    while i < cs.len()
        invariant
            i <= cs@.len(),
            out@ + unify(cs@.skip(i as int)) == unify(cs@),
        decreases cs@.len() - i,
    {
        let ghost rest = cs@.skip(i as int);
        assert(rest[0] == cs@[i as int]);
        if i + 1 < cs.len() && cs[i] == '\r' && cs[i + 1] == '\n' {
            assert(rest[1] == cs@[i + 1]);
            assert(rest.skip(2) =~= cs@.skip(i + 2));
            let ghost before = out@;
            out.push('\n');
            assert(out@ + unify(cs@.skip(i + 2)) =~= before + unify(rest));
            i = i + 2;
        } else {
            assert(rest.len() > 1 ==> rest[1] == cs@[i + 1]);
            assert(rest.skip(1) =~= cs@.skip(i + 1));
            let ghost before = out@;
            out.push(cs[i]);
            assert(out@ + unify(cs@.skip(i + 1)) =~= before + unify(rest));
            i = i + 1;
        }
    }
    assert(cs@.skip(i as int) =~= Seq::<char>::empty());
    assert(out@ + unify(cs@.skip(i as int)) =~= out@);
    out
}

fn lines_vec(n: &str) -> (r: Vec<String>)
    ensures
        text::views(r@) == lines_of(n@),
{
    let cs = text::chars_of(n);
    let len: usize = cs.len();
    let m: usize = if len > 0 && cs[len - 1] == '\n' {
        len - 1
    } else {
        len
    };
    assert(cs@.take(m as int) =~= body_of(n@));
    if m == 0 {
        let out: Vec<String> = Vec::new();
        assert(text::views(out@) =~= Seq::<Seq<char>>::empty());
        out
    } else {
        text::split_chars(&cs, m, '\n')
    }
}

/// The lines of a file, as an editor shows them.
pub fn editor_lines(text: &str) -> (r: Vec<String>)
    ensures
        text::views(r@) == lines_of(unify(text@)),
{
    let n = unified(text);
    lines_vec(n.as_str())
}

fn closed_by_newline(n: &str) -> (r: bool)
    ensures
        r == is_closed(n@),
{
    let cs = text::chars_of(n);
    let len: usize = cs.len();
    len > 0 && cs[len - 1] == '\n'
}

fn range_bytes(lines: &Vec<String>, closed: bool, lo: usize, hi: usize) -> (r: u64)
    requires
        lo <= hi <= lines@.len(),
        span_bytes(text::views(lines@), closed, 0, lines@.len() as int) <= usize::MAX,
    ensures
        r == span_bytes(text::views(lines@), closed, lo as int, hi as int),
{
    let ghost v = text::views(lines@);
    let mut sum: u64 = 0;
    let mut i: usize = lo;
    while i < hi
        invariant
            lo <= i <= hi <= lines@.len(),
            v == text::views(lines@),
            span_bytes(v, closed, 0, lines@.len() as int) <= usize::MAX,
            sum == span_bytes(v, closed, lo as int, i as int),
        decreases hi - i,
    {
        proof {
            lemma_span_join(v, closed, 0, lo as int, lines@.len() as int);
            lemma_span_join(v, closed, lo as int, i + 1, lines@.len() as int);
        }
        let base: usize = text::byte_len(lines[i].as_str());
        assert(v[i as int] == lines@[i as int]@);
        assert(span_bytes(v, closed, lo as int, i + 1) == sum + weight(v, closed, i as int));
        if i + 1 == lines.len() && !closed {
            sum = sum + base as u64;
        } else {
            sum = sum + base as u64 + 1;
        }
        i = i + 1;
    }
    sum
}

fn make_section(heading: String, level: u32, start_line: u64, end_line: u64, bytes: u64) -> (r:
    MarkdownSection)
    ensures
        r@ == (SectionView {
            heading: heading@,
            level: level as int,
            start_line: start_line as int,
            end_line: end_line as int,
            bytes: bytes as int,
            tokens: tokens::tokens_of(bytes as int),
        }),
{
    MarkdownSection {
        heading,
        level,
        start_line,
        end_line,
        bytes,
        tokens: tokens::tokens_from_bytes(bytes),
    }
}

fn has_level(hs: &Vec<HeadingInfo>, level: u32) -> (r: bool)
    ensures
        r == exists|i: int|
            0 <= i < heading_views(hs@).len() && (#[trigger] heading_views(hs@)[i]).level == level,
{
    let mut i: usize = 0;
    let ghost v = heading_views(hs@);
    while i < hs.len()
        invariant
            i <= hs@.len(),
            v == heading_views(hs@),
            forall|k: int| 0 <= k < i ==> (#[trigger] v[k]).level != level,
        decreases hs@.len() - i,
    {
        if hs[i].level == level {
            assert(v[i as int].level == level);
            return true;
        }
        assert(v[i as int].level == hs@[i as int].level);
        i = i + 1;
    }
    false
}

fn pick_level(hs: &Vec<HeadingInfo>, level: u32) -> (r: Vec<HeadingInfo>)
    ensures
        heading_views(r@) == of_level(heading_views(hs@), level as int),
{
    let mut out: Vec<HeadingInfo> = Vec::new();
    let ghost v = heading_views(hs@);
    let mut i: usize = 0;
    assert(v.take(0) =~= Seq::<HeadingView>::empty());
    assert(heading_views(out@) =~= Seq::<HeadingView>::empty());
    while i < hs.len()
        invariant
            i <= hs@.len(),
            v == heading_views(hs@),
            heading_views(out@) == of_level(v.take(i as int), level as int),
        decreases hs@.len() - i,
    {
        let h = &hs[i];
        assert(v.take(i + 1).drop_last() =~= v.take(i as int));
        assert(v.take(i + 1).last() == h@);
        if h.level == level {
            let ghost before = heading_views(out@);
            out.push(HeadingInfo { line: h.line, level: h.level, text: h.text.clone() });
            assert(heading_views(out@) =~= before.push(h@));
        }
        i = i + 1;
    }
    assert(v.take(i as int) =~= v);
    out
}

fn build_sections(lines: &Vec<String>, closed: bool, hs: &Vec<HeadingInfo>) -> (r: Vec<
    MarkdownSection,
>)
    requires
        hs@.len() > 0,
        span_bytes(text::views(lines@), closed, 0, lines@.len() as int) <= usize::MAX,
        forall|i: int|
            0 <= i < heading_views(hs@).len() ==> 1 <= (#[trigger] heading_views(hs@)[i]).line
                <= lines@.len(),
        forall|i: int, j: int|
            0 <= i < j < heading_views(hs@).len() ==> (#[trigger] heading_views(hs@)[i]).line < (
            #[trigger] heading_views(hs@)[j]).line,
    ensures
        section_views(r@) == sections_of(text::views(lines@), closed, heading_views(hs@)),
{
    let ghost v = text::views(lines@);
    let ghost hv = heading_views(hs@);
    let mut out: Vec<MarkdownSection> = Vec::new();
    let first: u64 = hs[0].line;
    let total: usize = lines.len();
    assert(hv[0].line == first);
    assert(1 <= first <= total);
    if first > 1 {
        let pb: u64 = range_bytes(lines, closed, 0, (first - 1) as usize);
        if pb > 0 {
            out.push(make_section("(preamble)".to_owned(), 0, 1, first - 1, pb));
        }
    }
    let ghost pre = preamble(v, closed, first as int);
    assert(section_views(out@) =~= pre);
    let mut i: usize = 0;
    while i < hs.len()
        invariant
            i <= hs@.len(),
            total == lines@.len(),
            v == text::views(lines@),
            hv == heading_views(hs@),
            span_bytes(v, closed, 0, lines@.len() as int) <= usize::MAX,
            forall|i: int| 0 <= i < hv.len() ==> 1 <= (#[trigger] hv[i]).line <= lines@.len(),
            forall|i: int, j: int|
                0 <= i < j < hv.len() ==> (#[trigger] hv[i]).line < (#[trigger] hv[j]).line,
            out@.len() == pre.len() + i,
            forall|k: int| 0 <= k < pre.len() ==> (#[trigger] out@[k])@ == pre[k],
            forall|k: int|
                pre.len() <= k < pre.len() + i ==> (#[trigger] out@[k])@ == section_at(
                    v,
                    closed,
                    hv[k - pre.len()].text,
                    hv[k - pre.len()].level,
                    hv[k - pre.len()].line,
                    section_end(hv, k - pre.len(), lines@.len() as int),
                ),
        decreases hs@.len() - i,
    {
        let h = &hs[i];
        assert(hv[i as int] == h@);
        let end_line: u64 = if i + 1 < hs.len() {
            assert(hv[i + 1].line > hv[i as int].line);
            hs[i + 1].line - 1
        } else {
            total as u64
        };
        assert(h.line <= end_line <= total);
        let bytes: u64 = range_bytes(lines, closed, (h.line - 1) as usize, end_line as usize);
        out.push(make_section(h.text.clone(), h.level, h.line, end_line, bytes));
        i = i + 1;
    }
    assert(section_views(out@) =~= sections_of(v, closed, hv));
    out
}

/// The sections of the file `text`, given the scan of each of its lines.
pub fn parse_scanned(file_path: &str, text: &str, scans: &Vec<LineScan>) -> (r: ParsedClaudeMd)
    requires
        scans@.len() == lines_of(unify(text@)).len(),
    ensures
        r@ == parsed(file_path@, text@, marks_of(scans@)),
{
    let n = unified(text);
    let lines = lines_vec(n.as_str());
    let closed = closed_by_newline(n.as_str());
    let total_lines: u64 = lines.len() as u64;
    let bytes: u64 = text::byte_len(n.as_str()) as u64;
    let headings = headings_from_scans(scans);
    let ghost marks = marks_of(scans@);
    proof {
        lemma_lines_cover(n@);
        lemma_heading_lines(marks);
        assert(text::views(lines@).len() == lines@.len());
    }
    let level: u32 = if has_level(&headings, 2) {
        2
    } else if has_level(&headings, 1) {
        1
    } else {
        0
    };
    assert(level == grouping(headings_of(marks)));
    let mut sections: Vec<MarkdownSection> = Vec::new();
    if level == 0 {
        if total_lines > 0 && bytes > 0 {
            sections.push(make_section("(preamble)".to_owned(), 0, 1, total_lines, bytes));
        }
        assert(section_views(sections@) =~= parsed(file_path@, text@, marks).sections);
    } else {
        let picked = pick_level(&headings, level);
        proof {
            lemma_of_level(headings_of(marks), level as int, lines@.len() as int);
            assert(heading_views(picked@).len() == picked@.len());
            assert(heading_views(picked@)[0].line <= lines@.len());
        }
        sections = build_sections(&lines, closed, &picked);
    }
    ParsedClaudeMd {
        path: file_path.to_owned(),
        total_lines,
        bytes,
        tokens: tokens::tokens_from_bytes(bytes),
        sections,
        grouping_level: level,
    }
}

/// The sections of the file `text`. Line ends count as one byte whether or not
/// a carriage return stands ahead of them.
pub fn parse_claude_md(file_path: &str, text: &str) -> (r: ParsedClaudeMd)
    ensures
        r@ == parsed(
            file_path@,
            text@,
            lines_of(unify(text@)).map_values(|l: Seq<char>| marks_of_line(l)),
        ),
{
    let lines = editor_lines(text);
    let scans = scan_lines(&lines);
    assert(marks_of(scans@).len() == scans@.len());
    parse_scanned(file_path, text, &scans)
}

/// Bytes of all the sections.
pub open spec fn sum_bytes(s: Seq<SectionView>) -> int
    decreases s.len(),
{
    if s.len() == 0 {
        0
    } else {
        sum_bytes(s.drop_last()) + s.last().bytes
    }
}

proof fn lemma_sections_prefix(
    lines: Seq<Seq<char>>,
    closed: bool,
    hs: Seq<HeadingView>,
    k: int,
)
    requires
        hs.len() > 0,
        0 <= k <= hs.len(),
        forall|i: int| 0 <= i < hs.len() ==> 1 <= (#[trigger] hs[i]).line <= lines.len(),
        forall|i: int, j: int|
            0 <= i < j < hs.len() ==> (#[trigger] hs[i]).line < (#[trigger] hs[j]).line,
    ensures
        sum_bytes(
            sections_of(lines, closed, hs).take(preamble(lines, closed, hs[0].line).len() + k),
        ) == span_bytes(
            lines,
            closed,
            0,
            if k < hs.len() {
                hs[k].line - 1
            } else {
                lines.len() as int
            },
        ),
    decreases k,
{
    let pre = preamble(lines, closed, hs[0].line);
    let all = sections_of(lines, closed, hs);
    let first = hs[0].line;
    if k == 0 {
        assert(all.take(pre.len() as int) =~= pre);
        if pre.len() == 1 {
            assert(pre.drop_last() =~= Seq::<SectionView>::empty());
            assert(sum_bytes(Seq::<SectionView>::empty()) == 0);
            assert(sum_bytes(pre) == pre[0].bytes);
        } else {
            assert(first == 1 || span_bytes(lines, closed, 0, first - 1) == 0);
        }
    } else {
        lemma_sections_prefix(lines, closed, hs, k - 1);
        let t = all.take(pre.len() + k);
        assert(t.drop_last() =~= all.take(pre.len() + k - 1));
        assert(t.last() == all[pre.len() + k - 1]);
        if k < hs.len() {
            assert(hs[k - 1].line < hs[k].line);
        }
        let end = section_end(hs, k - 1, lines.len() as int);
        lemma_span_join(lines, closed, 0, hs[k - 1].line - 1, end);
    }
}

/// The sections share out the bytes of the file: they add up to exactly the
/// bytes of the file wherever it has a line at all.
pub proof fn lemma_sections_partition_bytes(
    path: Seq<char>,
    text: Seq<char>,
    marks: Seq<LineMarks>,
)
    requires
        marks.len() == lines_of(unify(text)).len(),
    ensures
        parsed(path, text, marks).total_lines > 0 ==> sum_bytes(parsed(path, text, marks).sections)
            == parsed(path, text, marks).bytes,
        sum_bytes(parsed(path, text, marks).sections) <= parsed(path, text, marks).bytes,
{
    let n = unify(text);
    let lines = lines_of(n);
    let hs = headings_of(marks);
    let g = grouping(hs);
    let p = parsed(path, text, marks);
    lemma_lines_cover(n);
    lemma_heading_lines(marks);
    if g != 0 {
        lemma_of_level(hs, g, lines.len() as int);
        let picked = of_level(hs, g);
        lemma_sections_prefix(lines, is_closed(n), picked, picked.len() as int);
        assert(p.sections.take(p.sections.len() as int) =~= p.sections);
    } else if lines.len() > 0 && p.bytes > 0 {
        assert(p.sections.drop_last() =~= Seq::<SectionView>::empty());
        assert(sum_bytes(Seq::<SectionView>::empty()) == 0);
        assert(sum_bytes(p.sections) == p.bytes);
    } else {
        assert(p.sections =~= Seq::<SectionView>::empty());
    }
}

/// The sections follow one another without a gap from the first line to the
/// last.
pub proof fn lemma_sections_contiguous(path: Seq<char>, text: Seq<char>, marks: Seq<LineMarks>)
    requires
        marks.len() == lines_of(unify(text)).len(),
        lines_of(unify(text)).len() > 0,
    ensures
        parsed(path, text, marks).sections.len() > 0,
        parsed(path, text, marks).sections[0].start_line == 1,
        parsed(path, text, marks).sections.last().end_line == parsed(path, text, marks).total_lines,
        forall|i: int, j: int|
            0 <= i && j == i + 1 && j < parsed(path, text, marks).sections.len() ==> (
            #[trigger] parsed(path, text, marks).sections[j]).start_line == (
            #[trigger] parsed(path, text, marks).sections[i]).end_line + 1,
{
    let n = unify(text);
    let lines = lines_of(n);
    let closed = is_closed(n);
    let hs = headings_of(marks);
    let g = grouping(hs);
    lemma_lines_cover(n);
    lemma_heading_lines(marks);
    if g != 0 {
        lemma_of_level(hs, g, lines.len() as int);
        let picked = of_level(hs, g);
        let first = picked[0].line;
        if first > 1 {
            assert(span_bytes(lines, closed, 0, first - 1) == span_bytes(
                lines,
                closed,
                0,
                first - 2,
            ) + weight(lines, closed, first - 2));
            assert(preamble(lines, closed, first).len() == 1);
        }
    } else {
        let b = body_of(n);
        lemma_blen_positive(n);
    }
}

proof fn lemma_blen_positive(s: Seq<char>)
    ensures
        s.len() > 0 ==> text::blen(s) > 0,
{
    if s.len() > 0 {
        vstd::utf8::char_is_scalar(s[0]);
        assert(vstd::utf8::encode_scalar(s[0] as u32).len() > 0);
    }
}

} // verus!
