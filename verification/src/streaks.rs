//! Streaks of failing and cancelled tool calls.

use crate::findings::{
    CancellationRun, FailureRun, FailureRunErrorSignature, PatternEventSource, RetryLoop,
};
use crate::groups;
use crate::records::{ContentKind, ContentRecord, ToolResultEventSource, TurnRecord};
use crate::text;
use vstd::prelude::*;

verus! {

/// Number of failures from which on the same call is a retry loop.
pub const MIN_RETRY_LEN: usize = 3;

/// Number of failures from which on different calls are a failure run.
pub const MIN_FAILURE_RUN_LEN: usize = 3;

/// Number of characters of an error line that are kept.
pub const ERROR_SIGNATURE_MAX_CHARS: usize = 240;

/// How a tool call came out, as far as streaks go.
#[derive(Debug, Clone, Copy, PartialEq, Eq, Structural)]
pub enum Outcome {
    Errored,
    Cancelled,
    Other,
}

/// One tool call as an element of a streak.
pub struct Attempt {
    pub outcome: Outcome,
    pub tool: String,
    pub target: Option<String>,
    /// The hash of the arguments, where the call itself is known.
    pub args_hash: Option<String>,
    /// The id of the call, where the call itself is known.
    pub call_id: Option<String>,
    /// The id under which the outcome was reported.
    pub tool_use_id: String,
    pub turn_index: u64,
    /// The position of the turn, where it is known.
    pub turn: Option<usize>,
    /// What reported the outcome.
    pub source: ToolResultEventSource,
}

/// What an [`Attempt`] says.
#[verifier::ext_equal]
pub struct AttemptView {
    pub outcome: Outcome,
    pub tool: Seq<char>,
    pub target: Option<Seq<char>>,
    pub args_hash: Option<Seq<char>>,
    pub call_id: Option<Seq<char>>,
    pub tool_use_id: Seq<char>,
    pub turn_index: u64,
    pub turn: Option<usize>,
    pub source: ToolResultEventSource,
}

impl View for Attempt {
    type V = AttemptView;

    open spec fn view(&self) -> AttemptView {
        AttemptView {
            outcome: self.outcome,
            tool: self.tool@,
            target: text::opt_view(self.target),
            args_hash: text::opt_view(self.args_hash),
            call_id: text::opt_view(self.call_id),
            tool_use_id: self.tool_use_id@,
            turn_index: self.turn_index,
            turn: self.turn,
            source: self.source,
        }
    }
}

/// What each attempt says.
pub open spec fn attempt_views(a: Seq<Attempt>) -> Seq<AttemptView> {
    a.map_values(|x: Attempt| x@)
}

/// The elements of `s` that satisfy `p`, in order.
pub open spec fn pick<T>(s: Seq<T>, p: spec_fn(T) -> bool) -> Seq<T>
    decreases s.len(),
{
    if s.len() == 0 {
        s
    } else if p(s.last()) {
        pick(s.drop_last(), p).push(s.last())
    } else {
        pick(s.drop_last(), p)
    }
}

/// Where a walk through the first elements stands: the streaks that are
/// complete, and the start of the one that is open.
pub struct Walk {
    pub done: Seq<(int, int)>,
    pub start: int,
}

/// The walk through the first `n` elements. An element that is not kept ends
/// the streak; one that does not go with the head of the streak starts another.
pub open spec fn walk(n: int, keep: Seq<bool>, same: spec_fn(int, int) -> bool) -> Walk
    decreases n,
{
    if n <= 0 {
        Walk { done: Seq::empty(), start: 0 }
    } else {
        let w = walk(n - 1, keep, same);
        let i = n - 1;
        if !keep[i] {
            Walk {
                done: if w.start < i {
                    w.done.push((w.start, i))
                } else {
                    w.done
                },
                start: n,
            }
        } else if w.start < i && !same(w.start, i) {
            Walk { done: w.done.push((w.start, i)), start: i }
        } else {
            w
        }
    }
}

/// The streaks, each from its first element up to the one behind its last.
pub open spec fn streaks_of(keep: Seq<bool>, same: spec_fn(int, int) -> bool) -> Seq<(int, int)> {
    let w = walk(keep.len() as int, keep, same);
    if w.start < keep.len() {
        w.done.push((w.start, keep.len() as int))
    } else {
        w.done
    }
}

/// Whether `(lo, hi)` is a stretch of elements that are all kept and all go
/// with the first of them.
pub open spec fn is_streak(
    s: (int, int),
    keep: Seq<bool>,
    same: spec_fn(int, int) -> bool,
) -> bool {
    &&& 0 <= s.0 < s.1 <= keep.len()
    &&& forall|k: int| s.0 <= k < s.1 ==> #[trigger] keep[k]
    &&& forall|k: int| s.0 < k < s.1 ==> #[trigger] same(s.0, k)
}

proof fn lemma_walk(n: int, keep: Seq<bool>, same: spec_fn(int, int) -> bool)
    requires
        0 <= n <= keep.len(),
    ensures
        0 <= walk(n, keep, same).start <= n,
        walk(n, keep, same).start < n ==> is_streak(
            (walk(n, keep, same).start, n),
            keep,
            same,
        ),
        forall|i: int|
            0 <= i < walk(n, keep, same).done.len() ==> is_streak(
                #[trigger] walk(n, keep, same).done[i],
                keep,
                same,
            ) && walk(n, keep, same).done[i].1 <= walk(n, keep, same).start,
        forall|i: int, j: int|
            0 <= i < j < walk(n, keep, same).done.len() ==> (#[trigger] walk(
                n,
                keep,
                same,
            ).done[i]).1 <= (#[trigger] walk(n, keep, same).done[j]).0,
        forall|k: int|
            0 <= k < walk(n, keep, same).start && #[trigger] keep[k] ==> exists|i: int|
                0 <= i < walk(n, keep, same).done.len() && (#[trigger] walk(n, keep, same).done[i]).0
                    <= k < walk(n, keep, same).done[i].1,
    decreases n,
{
    if n > 0 {
        lemma_walk(n - 1, keep, same);
        let p = walk(n - 1, keep, same);
        let w = walk(n, keep, same);
        let i0 = n - 1;
        assert forall|k: int| 0 <= k < w.start && #[trigger] keep[k] implies exists|i: int|
            0 <= i < w.done.len() && (#[trigger] w.done[i]).0 <= k < w.done[i].1 by {
            if k < p.start {
                let i = choose|i: int|
                    0 <= i < p.done.len() && (#[trigger] p.done[i]).0 <= k < p.done[i].1;
                assert(w.done[i] == p.done[i]);
            } else {
                assert(k < i0);
                assert(w.done[p.done.len() as int] == (p.start, i0));
            }
        }
        assert(forall|i: int| 0 <= i < p.done.len() ==> #[trigger] w.done[i] == p.done[i]);
    }
}

/// The streaks are stretches of kept elements, one behind the other, and every
/// kept element is in one of them.
pub proof fn lemma_streaks(keep: Seq<bool>, same: spec_fn(int, int) -> bool)
    ensures
        forall|i: int|
            0 <= i < streaks_of(keep, same).len() ==> is_streak(
                #[trigger] streaks_of(keep, same)[i],
                keep,
                same,
            ),
        forall|i: int, j: int|
            0 <= i < j < streaks_of(keep, same).len() ==> (#[trigger] streaks_of(keep, same)[i]).1
                <= (#[trigger] streaks_of(keep, same)[j]).0,
        forall|k: int|
            0 <= k < keep.len() && #[trigger] keep[k] ==> exists|i: int|
                0 <= i < streaks_of(keep, same).len() && (#[trigger] streaks_of(keep, same)[i]).0
                    <= k < streaks_of(keep, same)[i].1,
{
    let n = keep.len() as int;
    lemma_walk(n, keep, same);
    let w = walk(n, keep, same);
    let s = streaks_of(keep, same);
    assert(forall|i: int| 0 <= i < w.done.len() ==> #[trigger] s[i] == w.done[i]);
    assert forall|k: int| 0 <= k < keep.len() && #[trigger] keep[k] implies exists|i: int|
        0 <= i < s.len() && (#[trigger] s[i]).0 <= k < s[i].1 by {
        if k < w.start {
            let i = choose|i: int|
                0 <= i < w.done.len() && (#[trigger] w.done[i]).0 <= k < w.done[i].1;
            assert(s[i] == w.done[i]);
        } else {
            assert(s[w.done.len() as int] == (w.start, n));
        }
    }
}

/// Which attempts failed.
pub open spec fn errored(a: Seq<AttemptView>) -> Seq<bool> {
    a.map_values(|x: AttemptView| x.outcome == Outcome::Errored)
}

/// Which attempts failed and belong to a known call.
pub open spec fn errored_calls(a: Seq<AttemptView>) -> Seq<bool> {
    a.map_values(|x: AttemptView| x.outcome == Outcome::Errored && x.call_id is Some && x.args_hash is Some)
}

/// Which attempts were cancelled.
pub open spec fn cancelled(a: Seq<AttemptView>) -> Seq<bool> {
    a.map_values(|x: AttemptView| x.outcome == Outcome::Cancelled)
}

/// Whether two attempts are the same tool with the same arguments.
pub open spec fn same_call(a: Seq<AttemptView>) -> spec_fn(int, int) -> bool {
    |i: int, j: int|
        a[i].tool == a[j].tool && a[i].args_hash == a[j].args_hash
}

/// All attempts go together.
pub open spec fn any_call() -> spec_fn(int, int) -> bool {
    |i: int, j: int| true
}

/// What decides which attempts a streak takes in.
#[derive(Clone, Copy, PartialEq, Eq, Structural)]
pub enum StreakKind {
    SameCallErrored,
    Errored,
    Cancelled,
}

/// Which attempts a streak of this kind keeps.
pub open spec fn kept(kind: StreakKind, a: Seq<AttemptView>) -> Seq<bool> {
    match kind {
        StreakKind::SameCallErrored => errored_calls(a),
        StreakKind::Errored => errored(a),
        StreakKind::Cancelled => cancelled(a),
    }
}

/// Which attempts go together in a streak of this kind.
pub open spec fn joined(kind: StreakKind, a: Seq<AttemptView>) -> spec_fn(int, int) -> bool {
    match kind {
        StreakKind::SameCallErrored => same_call(a),
        _ => any_call(),
    }
}

/// The streaks of this kind.
pub open spec fn streaks(kind: StreakKind, a: Seq<AttemptView>) -> Seq<(int, int)> {
    streaks_of(kept(kind, a), joined(kind, a))
}

fn same_opt(a: &Option<String>, b: &Option<String>) -> (r: bool)
    ensures
        r == (text::opt_view(*a) == text::opt_view(*b)),
{
    match (a, b) {
        (Some(x), Some(y)) => text::same(x.as_str(), y.as_str()),
        (None, None) => true,
        _ => false,
    }
}

fn is_kept(kind: StreakKind, a: &Attempt) -> (r: bool)
    ensures
        r == (match kind {
            StreakKind::SameCallErrored => a.outcome == Outcome::Errored && a.call_id is Some
                && a.args_hash is Some,
            StreakKind::Errored => a.outcome == Outcome::Errored,
            StreakKind::Cancelled => a.outcome == Outcome::Cancelled,
        }),
{
    match kind {
        StreakKind::SameCallErrored => a.outcome == Outcome::Errored && a.call_id.is_some()
            && a.args_hash.is_some(),
        StreakKind::Errored => a.outcome == Outcome::Errored,
        StreakKind::Cancelled => a.outcome == Outcome::Cancelled,
    }
}

fn goes_with(kind: StreakKind, a: &Attempt, b: &Attempt) -> (r: bool)
    ensures
        r == (match kind {
            StreakKind::SameCallErrored => a.tool@ == b.tool@ && text::opt_view(a.args_hash)
                == text::opt_view(b.args_hash),
            _ => true,
        }),
{
    match kind {
        StreakKind::SameCallErrored => text::same(a.tool.as_str(), b.tool.as_str()) && same_opt(
            &a.args_hash,
            &b.args_hash,
        ),
        _ => true,
    }
}

/// The bounds of the streaks as integers.
pub open spec fn bounds(v: Seq<(usize, usize)>) -> Seq<(int, int)> {
    v.map_values(|p: (usize, usize)| (p.0 as int, p.1 as int))
}

/// Finds the streaks of one kind.
pub fn detect_streaks(kind: StreakKind, attempts: &Vec<Attempt>) -> (r: Vec<(usize, usize)>)
    ensures
        bounds(r@) == streaks(kind, attempt_views(attempts@)),
{
    let ghost keep = kept(kind, attempt_views(attempts@));
    let ghost same = joined(kind, attempt_views(attempts@));
    let mut out: Vec<(usize, usize)> = Vec::new();
    let mut start: usize = 0;
    let mut i: usize = 0;
    assert(bounds(out@) =~= Seq::<(int, int)>::empty());
    while i < attempts.len()
        invariant
            i <= attempts@.len(),
            keep == kept(kind, attempt_views(attempts@)),
            keep.len() == attempts@.len(),
            same == joined(kind, attempt_views(attempts@)),
            start == walk(i as int, keep, same).start,
            start <= i,
            bounds(out@) == walk(i as int, keep, same).done,
        decreases attempts@.len() - i,
    {
        proof {
            lemma_walk(i as int, keep, same);
        }
        let ghost before = bounds(out@);
        let a = &attempts[i];
        if !is_kept(kind, a) {
            if start < i {
                out.push((start, i));
                assert(bounds(out@) =~= before.push((start as int, i as int)));
            }
            start = i + 1;
        } else if start < i && !goes_with(kind, &attempts[start], a) {
            out.push((start, i));
            assert(bounds(out@) =~= before.push((start as int, i as int)));
            start = i;
        }
        i = i + 1;
    }
    let ghost before = bounds(out@);
    if start < attempts.len() {
        out.push((start, attempts.len()));
        assert(bounds(out@) =~= before.push((start as int, attempts@.len() as int)));
    }
    out
}

/// The key under which the cost of a turn is counted once.
pub open spec fn turn_key(t: TurnRecord) -> Seq<char> {
    t.session_id@ + "|"@ + t.message_id@
}

/// The positions without those of turns that an earlier one stands for.
pub open spec fn distinct_turns(turns: Seq<TurnRecord>, at: Seq<usize>) -> Seq<usize>
    decreases at.len(),
{
    if at.len() == 0 {
        at
    } else {
        let rest = distinct_turns(turns, at.drop_last());
        if exists|k: int|
            0 <= k < rest.len() && turn_key(turns[#[trigger] rest[k] as int]) == turn_key(
                turns[at.last() as int],
            ) {
            rest
        } else {
            rest.push(at.last())
        }
    }
}

fn same_turn(a: &TurnRecord, b: &TurnRecord) -> (r: bool)
    ensures
        r == (turn_key(*a) == turn_key(*b)),
{
    let x = text::join3(a.session_id.as_str(), "|", a.message_id.as_str());
    let y = text::join3(b.session_id.as_str(), "|", b.message_id.as_str());
    text::same(x.as_str(), y.as_str())
}

/// The positions without those of turns that an earlier one stands for.
pub fn dedup_turns(turns: &[TurnRecord], at: &Vec<usize>) -> (r: Vec<usize>)
    requires
        forall|i: int| 0 <= i < at@.len() ==> (#[trigger] at@[i]) < turns@.len(),
    ensures
        r@ == distinct_turns(turns@, at@),
        forall|i: int| 0 <= i < r@.len() ==> (#[trigger] r@[i]) < turns@.len(),
{
    let mut out: Vec<usize> = Vec::new();
    let mut i: usize = 0;
    assert(at@.take(0) =~= Seq::<usize>::empty());
    while i < at.len()
        invariant
            i <= at@.len(),
            forall|i: int| 0 <= i < at@.len() ==> (#[trigger] at@[i]) < turns@.len(),
            out@ == distinct_turns(turns@, at@.take(i as int)),
            forall|i: int| 0 <= i < out@.len() ==> (#[trigger] out@[i]) < turns@.len(),
        decreases at@.len() - i,
    {
        assert(at@.take(i + 1).drop_last() =~= at@.take(i as int));
        assert(at@.take(i + 1).last() == at@[i as int]);
        let m: usize = at[i];
        let mut seen = false;
        let mut j: usize = 0;
        while j < out.len() && !seen
            invariant
                j <= out@.len(),
                m < turns@.len(),
                forall|i: int| 0 <= i < out@.len() ==> (#[trigger] out@[i]) < turns@.len(),
                seen == exists|k: int|
                    0 <= k < j && turn_key(turns@[#[trigger] out@[k] as int]) == turn_key(
                        turns@[m as int],
                    ),
            decreases out@.len() - j,
        {
            assert(out@[j as int] < turns@.len());
            seen = same_turn(&turns[out[j]], &turns[m]);
            j = j + 1;
        }
        if !seen {
            out.push(m);
        }
        i = i + 1;
    }
    assert(at@.take(i as int) =~= at@);
    out
}

/// The text of the first captured result for the call `id`.
pub open spec fn first_result(content: Seq<ContentRecord>, id: Seq<char>) -> Option<Seq<char>>
    decreases content.len(),
{
    if content.len() == 0 {
        None
    } else {
        let before = first_result(content.drop_last(), id);
        if before is Some {
            before
        } else {
            crate::hotspots::result_text(content.last(), id)
        }
    }
}

/// The first of the lines that is not blank, without white space at its ends.
pub open spec fn first_line(lines: Seq<Seq<char>>) -> Option<Seq<char>>
    decreases lines.len(),
{
    if lines.len() == 0 {
        None
    } else if text::trim_of(lines[0]).len() > 0 {
        Some(text::trim_of(lines[0]))
    } else {
        first_line(lines.drop_first())
    }
}

/// The first line of an error that is not blank, cut to size.
pub open spec fn signature_of(result: Option<Seq<char>>) -> Option<Seq<char>> {
    match result {
        Some(t) => match first_line(text::split_on(t, '\n')) {
            Some(l) => Some(text::truncated(l, ERROR_SIGNATURE_MAX_CHARS as nat)),
            None => None,
        },
        None => None,
    }
}

/// The signature of the error of an attempt, where its call is known and its
/// result was captured.
pub open spec fn attempt_signature(a: AttemptView, content: Seq<ContentRecord>) -> Option<Seq<char>> {
    match a.call_id {
        Some(id) => signature_of(first_result(content, id)),
        None => None,
    }
}

fn find_result(content: &[ContentRecord], id: &str) -> (r: Option<String>)
    ensures
        text::opt_view(r) == first_result(content@, id@),
{
    let mut i: usize = 0;
    assert(content@.take(0) =~= Seq::<ContentRecord>::empty());
    while i < content.len()
        invariant
            i <= content@.len(),
            first_result(content@.take(i as int), id@) is None,
        decreases content@.len() - i,
    {
        assert(content@.take(i + 1).drop_last() =~= content@.take(i as int));
        let c = &content[i];
        match &c.tool_result {
            Some(tr) => {
                if c.kind == ContentKind::ToolResult && text::same(tr.tool_use_id.as_str(), id) {
                    proof {
                        lemma_first_result_stays(content@, id@, i + 1);
                    }
                    return Some(tr.content.clone());
                }
            },
            None => {},
        }
        i = i + 1;
    }
    assert(content@.take(i as int) =~= content@);
    None
}

proof fn lemma_first_result_stays(content: Seq<ContentRecord>, id: Seq<char>, n: int)
    requires
        0 <= n <= content.len(),
        first_result(content.take(n), id) is Some,
    ensures
        first_result(content, id) == first_result(content.take(n), id),
    decreases content.len() - n,
{
    if n < content.len() {
        assert(content.take(n + 1).drop_last() =~= content.take(n));
        lemma_first_result_stays(content, id, n + 1);
    } else {
        assert(content.take(n) =~= content);
    }
}

/// The first line that is not blank, cut to size.
pub fn extract_error_signature(result: &str) -> (r: Option<String>)
    ensures
        text::opt_view(r) == signature_of(Some(result@)),
{
    let cs = text::chars_of(result);
    assert(cs@.take(cs@.len() as int) =~= cs@);
    let lines = text::split_chars(&cs, cs.len(), '\n');
    let ghost all = text::views(lines@);
    let mut i: usize = 0;
    assert(all.skip(0) =~= all);
    while i < lines.len()
        invariant
            i <= lines@.len(),
            all == text::views(lines@),
            all == text::split_on(result@, '\n'),
            first_line(all) == first_line(all.skip(i as int)),
        decreases lines@.len() - i,
    {
        assert(all.skip(i as int)[0] == lines@[i as int]@);
        let line = text::trim(lines[i].as_str());
        if !line.as_str().is_empty() {
            return Some(text::truncate_chars(line.as_str(), ERROR_SIGNATURE_MAX_CHARS));
        }
        assert(all.skip(i as int).drop_first() =~= all.skip(i + 1));
        i = i + 1;
    }
    None
}

fn find_signature(a: &Attempt, content: &[ContentRecord]) -> (r: Option<String>)
    ensures
        text::opt_view(r) == attempt_signature(a@, content@),
{
    match &a.call_id {
        Some(id) => match find_result(content, id.as_str()) {
            Some(t) => extract_error_signature(t.as_str()),
            None => None,
        },
        None => None,
    }
}

/// The signatures that the attempts have, in order.
pub open spec fn signatures(streak: Seq<AttemptView>, content: Seq<ContentRecord>) -> Seq<Seq<char>>
    decreases streak.len(),
{
    if streak.len() == 0 {
        Seq::empty()
    } else {
        let rest = signatures(streak.drop_last(), content);
        match attempt_signature(streak.last(), content) {
            Some(s) => rest.push(s),
            None => rest,
        }
    }
}

/// The signature of a retry loop: the first one, marked where others differ.
pub open spec fn loop_signature(streak: Seq<AttemptView>, content: Seq<ContentRecord>) -> Option<
    Seq<char>,
> {
    let sigs = signatures(streak, content);
    if sigs.len() == 0 {
        None
    } else if exists|i: int| 0 <= i < sigs.len() && #[trigger] sigs[i] != sigs[0] {
        Some(sigs[0] + " (signatures diverged)"@)
    } else {
        Some(sigs[0])
    }
}

fn retry_loop_signature(
    attempts: &Vec<Attempt>,
    lo: usize,
    hi: usize,
    content: &[ContentRecord],
) -> (r: Option<String>)
    requires
        lo <= hi <= attempts@.len(),
    ensures
        text::opt_view(r) == loop_signature(
            attempt_views(attempts@).subrange(lo as int, hi as int),
            content@,
        ),
{
    let ghost streak = attempt_views(attempts@).subrange(lo as int, hi as int);
    let mut first: Option<String> = None;
    let mut diverged = false;
    let mut i: usize = lo;
    assert(streak.take(0) =~= Seq::<AttemptView>::empty());
    while i < hi
        invariant
            lo <= i <= hi <= attempts@.len(),
            streak == attempt_views(attempts@).subrange(lo as int, hi as int),
            ({
                let sigs = signatures(streak.take(i - lo), content@);
                &&& text::opt_view(first) == (if sigs.len() == 0 {
                    None
                } else {
                    Some(sigs[0])
                })
                &&& diverged == exists|k: int| 0 <= k < sigs.len() && #[trigger] sigs[k] != sigs[0]
            }),
        decreases hi - i,
    {
        let ghost sigs = signatures(streak.take(i - lo), content@);
        let ghost next = signatures(streak.take(i + 1 - lo), content@);
        assert(streak.take(i + 1 - lo).drop_last() =~= streak.take(i - lo));
        assert(streak.take(i + 1 - lo).last() == attempts@[i as int]@);
        match find_signature(&attempts[i], content) {
            Some(sig) => {
                assert(next == sigs.push(sig@));
                match &first {
                    None => {
                        first = Some(sig);
                        assert(next =~= seq![sig@]);
                    },
                    Some(existing) => {
                        let differs = !text::same(existing.as_str(), sig.as_str());
                        assert(next[0] == sigs[0]);
                        assert(forall|k: int| 0 <= k < sigs.len() ==> next[k] == sigs[k]);
                        assert(next[sigs.len() as int] == sig@);
                        if differs {
                            diverged = true;
                            assert(next[sigs.len() as int] != next[0]);
                        } else if diverged {
                            let ghost k = choose|k: int|
                                0 <= k < sigs.len() && #[trigger] sigs[k] != sigs[0];
                            assert(next[k] != next[0]);
                        }
                    },
                }
            },
            None => {},
        }
        i = i + 1;
    }
    assert(streak.take(i - lo) =~= streak);
    match first {
        Some(f) => if diverged {
            Some(text::join2(f.as_str(), " (signatures diverged)"))
        } else {
            Some(f)
        },
        None => None,
    }
}

/// Whether a signature for `tool` is among `sigs`.
pub open spec fn has_tool(sigs: Seq<(Seq<char>, Seq<char>)>, tool: Seq<char>) -> bool {
    exists|i: int| 0 <= i < sigs.len() && (#[trigger] sigs[i]).0 == tool
}

/// The first signature of each tool, in the order of the attempts.
pub open spec fn run_signatures(streak: Seq<AttemptView>, content: Seq<ContentRecord>) -> Seq<
    (Seq<char>, Seq<char>),
>
    decreases streak.len(),
{
    if streak.len() == 0 {
        Seq::empty()
    } else {
        let rest = run_signatures(streak.drop_last(), content);
        let a = streak.last();
        match attempt_signature(a, content) {
            Some(s) => if has_tool(rest, a.tool) {
                rest
            } else {
                rest.push((a.tool, s))
            },
            None => rest,
        }
    }
}

/// What each signature says.
pub open spec fn signature_views(v: Seq<FailureRunErrorSignature>) -> Seq<(Seq<char>, Seq<char>)> {
    v.map_values(|s: FailureRunErrorSignature| (s.tool@, s.first_line@))
}

fn listed(v: &Vec<FailureRunErrorSignature>, tool: &str) -> (r: bool)
    ensures
        r == has_tool(signature_views(v@), tool@),
{
    let ghost all = signature_views(v@);
    let mut i: usize = 0;
    while i < v.len()
        invariant
            i <= v@.len(),
            all == signature_views(v@),
            forall|k: int| 0 <= k < i ==> (#[trigger] all[k]).0 != tool@,
        decreases v@.len() - i,
    {
        assert(all[i as int].0 == v@[i as int].tool@);
        if text::same(v[i].tool.as_str(), tool) {
            return true;
        }
        i = i + 1;
    }
    false
}

fn failure_run_signatures(
    attempts: &Vec<Attempt>,
    lo: usize,
    hi: usize,
    content: &[ContentRecord],
) -> (r: Vec<FailureRunErrorSignature>)
    requires
        lo <= hi <= attempts@.len(),
    ensures
        signature_views(r@) == run_signatures(
            attempt_views(attempts@).subrange(lo as int, hi as int),
            content@,
        ),
{
    let ghost streak = attempt_views(attempts@).subrange(lo as int, hi as int);
    let mut out: Vec<FailureRunErrorSignature> = Vec::new();
    let mut i: usize = lo;
    assert(streak.take(0) =~= Seq::<AttemptView>::empty());
    assert(signature_views(out@) =~= Seq::<(Seq<char>, Seq<char>)>::empty());
    while i < hi
        invariant
            lo <= i <= hi <= attempts@.len(),
            streak == attempt_views(attempts@).subrange(lo as int, hi as int),
            signature_views(out@) == run_signatures(streak.take(i - lo), content@),
        decreases hi - i,
    {
        assert(streak.take(i + 1 - lo).drop_last() =~= streak.take(i - lo));
        assert(streak.take(i + 1 - lo).last() == attempts@[i as int]@);
        let a = &attempts[i];
        if !listed(&out, a.tool.as_str()) {
            match find_signature(a, content) {
                Some(sig) => {
                    let ghost before = signature_views(out@);
                    let ghost entry = (a.tool@, sig@);
                    out.push(
                        FailureRunErrorSignature { tool: a.tool.clone(), first_line: sig },
                    );
                    assert(signature_views(out@) =~= before.push(entry));
                },
                None => {},
            }
        }
        i = i + 1;
    }
    assert(streak.take(i - lo) =~= streak);
    out
}

/// The source of a streak: that of its reports, or `Mixed`.
pub open spec fn source_of(streak: Seq<AttemptView>) -> PatternEventSource {
    if forall|i: int| 0 <= i < streak.len() ==> (#[trigger] streak[i]).source == streak[0].source {
        PatternEventSource::of(streak[0].source)
    } else {
        PatternEventSource::Mixed
    }
}

fn coalesce_event_source(attempts: &Vec<Attempt>, lo: usize, hi: usize) -> (r: PatternEventSource)
    requires
        lo < hi <= attempts@.len(),
    ensures
        r == source_of(attempt_views(attempts@).subrange(lo as int, hi as int)),
{
    let ghost streak = attempt_views(attempts@).subrange(lo as int, hi as int);
    let mut i: usize = lo;
    while i < hi
        invariant
            lo <= i <= hi <= attempts@.len(),
            lo < hi,
            streak == attempt_views(attempts@).subrange(lo as int, hi as int),
            forall|k: int| 0 <= k < i - lo ==> (#[trigger] streak[k]).source == streak[0].source,
        decreases hi - i,
    {
        assert(streak[i - lo] == attempts@[i as int]@);
        assert(streak[0] == attempts@[lo as int]@);
        if attempts[i].source != attempts[lo].source {
            assert(streak[i - lo].source != streak[0].source);
            return PatternEventSource::Mixed;
        }
        i = i + 1;
    }
    assert(streak[0] == attempts@[lo as int]@);
    PatternEventSource::from(attempts[lo].source)
}

/// The positions of the turns that the attempts belong to.
pub open spec fn turns_of(streak: Seq<AttemptView>) -> Seq<usize>
    decreases streak.len(),
{
    if streak.len() == 0 {
        Seq::empty()
    } else {
        let rest = turns_of(streak.drop_last());
        match streak.last().turn {
            Some(t) => rest.push(t),
            None => rest,
        }
    }
}

/// Every attempt that names a turn names one that is there.
pub open spec fn turns_inside(a: Seq<AttemptView>, n: nat) -> bool {
    forall|i: int|
        0 <= i < a.len() && (#[trigger] a[i]).turn is Some ==> a[i].turn->Some_0 < n
}

fn cost_turns(turns: &[TurnRecord], attempts: &Vec<Attempt>, lo: usize, hi: usize) -> (r: Vec<
    usize,
>)
    requires
        lo <= hi <= attempts@.len(),
        turns_inside(attempt_views(attempts@), turns@.len()),
    ensures
        r@ == distinct_turns(turns@, turns_of(attempt_views(attempts@).subrange(lo as int, hi as int))),
{
    let ghost streak = attempt_views(attempts@).subrange(lo as int, hi as int);
    let mut at: Vec<usize> = Vec::new();
    let mut i: usize = lo;
    assert(streak.take(0) =~= Seq::<AttemptView>::empty());
    while i < hi
        invariant
            lo <= i <= hi <= attempts@.len(),
            turns_inside(attempt_views(attempts@), turns@.len()),
            streak == attempt_views(attempts@).subrange(lo as int, hi as int),
            at@ == turns_of(streak.take(i - lo)),
            forall|i: int| 0 <= i < at@.len() ==> (#[trigger] at@[i]) < turns@.len(),
        decreases hi - i,
    {
        assert(streak.take(i + 1 - lo).drop_last() =~= streak.take(i - lo));
        assert(streak.take(i + 1 - lo).last() == attempts@[i as int]@);
        match attempts[i].turn {
            Some(t) => {
                at.push(t);
            },
            None => {},
        }
        i = i + 1;
    }
    assert(streak.take(i - lo) =~= streak);
    dedup_turns(turns, &at)
}

/// The tools of the attempts.
pub open spec fn tools_of(streak: Seq<AttemptView>) -> Seq<Seq<char>> {
    streak.map_values(|a: AttemptView| a.tool)
}

fn tools_involved(attempts: &Vec<Attempt>, lo: usize, hi: usize) -> (r: Vec<String>)
    requires
        lo <= hi <= attempts@.len(),
    ensures
        text::views(r@) == groups::first_seen(
            tools_of(attempt_views(attempts@).subrange(lo as int, hi as int)),
        ),
{
    let mut all: Vec<String> = Vec::new();
    let mut i: usize = lo;
    while i < hi
        invariant
            lo <= i <= hi <= attempts@.len(),
            all@.len() == i - lo,
            forall|k: int| 0 <= k < i - lo ==> (#[trigger] all@[k])@ == attempts@[lo + k].tool@,
        decreases hi - i,
    {
        all.push(attempts[i].tool.clone());
        i = i + 1;
    }
    assert(text::views(all@) =~= tools_of(attempt_views(attempts@).subrange(lo as int, hi as int)));
    groups::distinct(&all)
}

/// Whether the loop is the one that the streak `s` makes. `graph` says whether
/// the outcomes come from reports.
pub open spec fn is_retry_loop(
    r: RetryLoop,
    session: Seq<char>,
    turns: Seq<TurnRecord>,
    streak: Seq<AttemptView>,
    content: Seq<ContentRecord>,
    graph: bool,
) -> bool {
    &&& r.session_id@ == session
    &&& r.tool@ == streak[0].tool
    &&& text::opt_view(r.target) == streak[0].target
    &&& Some(r.args_hash@) == streak[0].args_hash
    &&& r.attempts == streak.len()
    &&& r.start_turn_index == streak[0].turn_index
    &&& r.end_turn_index == streak.last().turn_index
    &&& r.cost_turns@ == distinct_turns(turns, turns_of(streak))
    &&& text::opt_view(r.error_signature) == loop_signature(streak, content)
    &&& r.event_source == (if graph {
        Some(source_of(streak))
    } else {
        None
    })
}

/// The elements of a streak.
pub open spec fn members_of(a: Seq<AttemptView>, s: (int, int)) -> Seq<AttemptView> {
    a.subrange(s.0, s.1)
}

/// The streaks that are retry loops: at least three failures of the same call.
pub open spec fn retry_streaks(a: Seq<AttemptView>) -> Seq<(int, int)> {
    pick(
        streaks(StreakKind::SameCallErrored, a),
        |s: (int, int)| s.1 - s.0 >= MIN_RETRY_LEN,
    )
}

/// Finds the retry loops.
pub fn detect_retry_loops(
    session_id: &str,
    turns: &[TurnRecord],
    attempts: &Vec<Attempt>,
    content: &[ContentRecord],
    graph: bool,
) -> (r: Vec<RetryLoop>)
    requires
        turns_inside(attempt_views(attempts@), turns@.len()),
    ensures
        r@.len() == retry_streaks(attempt_views(attempts@)).len(),
        forall|i: int|
            0 <= i < r@.len() ==> is_retry_loop(
                #[trigger] r@[i],
                session_id@,
                turns@,
                members_of(attempt_views(attempts@), retry_streaks(attempt_views(attempts@))[i]),
                content@,
                graph,
            ),
{
    let found = detect_streaks(StreakKind::SameCallErrored, attempts);
    let ghost all = streaks(StreakKind::SameCallErrored, attempt_views(attempts@));
    let ghost p = |s: (int, int)| s.1 - s.0 >= MIN_RETRY_LEN;
    let mut out: Vec<RetryLoop> = Vec::new();
    let mut i: usize = 0;
    proof {
        lemma_streaks(
            kept(StreakKind::SameCallErrored, attempt_views(attempts@)),
            joined(StreakKind::SameCallErrored, attempt_views(attempts@)),
        );
    }
    assert(all.take(0) =~= Seq::<(int, int)>::empty());
    while i < found.len()
        invariant
            i <= found@.len(),
            turns_inside(attempt_views(attempts@), turns@.len()),
            all == streaks(StreakKind::SameCallErrored, attempt_views(attempts@)),
            all == bounds(found@),
            p == (|s: (int, int)| s.1 - s.0 >= MIN_RETRY_LEN),
            forall|k: int|
                0 <= k < all.len() ==> is_streak(
                    #[trigger] all[k],
                    kept(StreakKind::SameCallErrored, attempt_views(attempts@)),
                    joined(StreakKind::SameCallErrored, attempt_views(attempts@)),
                ),
            out@.len() == pick(all.take(i as int), p).len(),
            forall|k: int|
                0 <= k < out@.len() ==> is_retry_loop(
                    #[trigger] out@[k],
                    session_id@,
                    turns@,
                    members_of(attempt_views(attempts@), pick(all.take(i as int), p)[k]),
                    content@,
                    graph,
                ),
        decreases found@.len() - i,
    {
        let (lo, hi) = found[i];
        assert(all[i as int] == (lo as int, hi as int));
        assert(is_streak(
            all[i as int],
            kept(StreakKind::SameCallErrored, attempt_views(attempts@)),
            joined(StreakKind::SameCallErrored, attempt_views(attempts@)),
        ));
        assert(all.take(i + 1).drop_last() =~= all.take(i as int));
        assert(all.take(i + 1).last() == (lo as int, hi as int));
        if hi - lo >= MIN_RETRY_LEN {
            let ghost streak = members_of(attempt_views(attempts@), (lo as int, hi as int));
            assert(streak[0] == attempts@[lo as int]@);
            assert(streak.last() == attempts@[hi - 1]@);
            let first = &attempts[lo];
            assert(kept(StreakKind::SameCallErrored, attempt_views(attempts@))[lo as int]);
            let args_hash = match &first.args_hash {
                Some(h) => h.clone(),
                None => String::new(),
            };
            let found_loop = RetryLoop {
                session_id: session_id.to_owned(),
                tool: first.tool.clone(),
                target: text::clone_opt(&first.target),
                args_hash,
                attempts: (hi - lo) as u64,
                start_turn_index: first.turn_index,
                end_turn_index: attempts[hi - 1].turn_index,
                cost_turns: cost_turns(turns, attempts, lo, hi),
                error_signature: retry_loop_signature(attempts, lo, hi, content),
                event_source: if graph {
                    Some(coalesce_event_source(attempts, lo, hi))
                } else {
                    None
                },
            };
            assert(is_retry_loop(found_loop, session_id@, turns@, streak, content@, graph));
            out.push(found_loop);
        }
        i = i + 1;
    }
    assert(all.take(i as int) =~= all);
    out
}

/// The key of an attempt: its tool, and its arguments or the id it goes by.
pub open spec fn attempt_key(a: AttemptView) -> Seq<char> {
    a.tool + "|"@ + (match a.args_hash {
        Some(h) => h,
        None => a.tool_use_id,
    })
}

fn make_attempt_key(a: &Attempt) -> (r: String)
    ensures
        r@ == attempt_key(a@),
{
    match &a.args_hash {
        Some(h) => text::join3(a.tool.as_str(), "|", h.as_str()),
        None => text::join3(a.tool.as_str(), "|", a.tool_use_id.as_str()),
    }
}

/// Whether all attempts have the same key.
pub open spec fn one_key(streak: Seq<AttemptView>) -> bool {
    forall|i: int|
        0 <= i < streak.len() ==> attempt_key(#[trigger] streak[i]) == attempt_key(streak[0])
}

/// Whether some outcome was reported by something other than the tool itself.
pub open spec fn has_other_source(streak: Seq<AttemptView>) -> bool {
    exists|i: int|
        0 <= i < streak.len() && (#[trigger] streak[i]).source != ToolResultEventSource::ToolResult
}

/// Whether a streak of failures is a failure run: at least three of them, and
/// not all the same call, unless something other than the tool reported one.
pub open spec fn is_run(streak: Seq<AttemptView>, graph: bool) -> bool {
    streak.len() >= MIN_FAILURE_RUN_LEN && (!one_key(streak) || (graph && has_other_source(streak)))
}

fn check_run(attempts: &Vec<Attempt>, lo: usize, hi: usize, graph: bool) -> (r: bool)
    requires
        lo < hi <= attempts@.len(),
    ensures
        r == is_run(attempt_views(attempts@).subrange(lo as int, hi as int), graph),
{
    let ghost streak = attempt_views(attempts@).subrange(lo as int, hi as int);
    if hi - lo < MIN_FAILURE_RUN_LEN {
        return false;
    }
    let head = make_attempt_key(&attempts[lo]);
    assert(streak[0] == attempts@[lo as int]@);
    let mut one = true;
    let mut other = false;
    let mut i: usize = lo;
    while i < hi
        invariant
            lo <= i <= hi <= attempts@.len(),
            streak == attempt_views(attempts@).subrange(lo as int, hi as int),
            head@ == attempt_key(streak[0]),
            one == forall|k: int|
                0 <= k < i - lo ==> attempt_key(#[trigger] streak[k]) == attempt_key(streak[0]),
            other == exists|k: int|
                0 <= k < i - lo && (#[trigger] streak[k]).source
                    != ToolResultEventSource::ToolResult,
        decreases hi - i,
    {
        assert(streak[i - lo] == attempts@[i as int]@);
        let key = make_attempt_key(&attempts[i]);
        if !text::same(key.as_str(), head.as_str()) {
            one = false;
            assert(attempt_key(streak[i - lo]) != attempt_key(streak[0]));
        }
        if attempts[i].source != ToolResultEventSource::ToolResult {
            other = true;
            assert(streak[i - lo].source != ToolResultEventSource::ToolResult);
        }
        i = i + 1;
    }
    !one || (graph && other)
}

/// Whether the run is the one that the streak makes.
pub open spec fn is_failure_run(
    r: FailureRun,
    session: Seq<char>,
    turns: Seq<TurnRecord>,
    streak: Seq<AttemptView>,
    content: Seq<ContentRecord>,
    graph: bool,
) -> bool {
    let sigs = run_signatures(streak, content);
    &&& r.session_id@ == session
    &&& r.length == streak.len()
    &&& r.start_turn_index == streak[0].turn_index
    &&& r.end_turn_index == streak.last().turn_index
    &&& text::views(r.tools_involved@) == groups::first_seen(tools_of(streak))
    &&& r.cost_turns@ == distinct_turns(turns, turns_of(streak))
    &&& match r.error_signatures {
        Some(v) => sigs.len() > 0 && signature_views(v@) == sigs,
        None => sigs.len() == 0,
    }
    &&& r.event_source == (if graph {
        Some(source_of(streak))
    } else {
        None
    })
}

/// The streaks that are failure runs.
pub open spec fn failure_streaks(a: Seq<AttemptView>, graph: bool) -> Seq<(int, int)> {
    pick(
        streaks(StreakKind::Errored, a),
        |s: (int, int)| is_run(members_of(a, s), graph),
    )
}

/// Finds the failure runs.
pub fn detect_failure_runs(
    session_id: &str,
    turns: &[TurnRecord],
    attempts: &Vec<Attempt>,
    content: &[ContentRecord],
    graph: bool,
) -> (r: Vec<FailureRun>)
    requires
        turns_inside(attempt_views(attempts@), turns@.len()),
    ensures
        r@.len() == failure_streaks(attempt_views(attempts@), graph).len(),
        forall|i: int|
            0 <= i < r@.len() ==> is_failure_run(
                #[trigger] r@[i],
                session_id@,
                turns@,
                members_of(attempt_views(attempts@), failure_streaks(attempt_views(attempts@), graph)[i]),
                content@,
                graph,
            ),
{
    let found = detect_streaks(StreakKind::Errored, attempts);
    let ghost all = streaks(StreakKind::Errored, attempt_views(attempts@));
    let ghost p = |s: (int, int)| is_run(members_of(attempt_views(attempts@), s), graph);
    let mut out: Vec<FailureRun> = Vec::new();
    let mut i: usize = 0;
    proof {
        lemma_streaks(
            kept(StreakKind::Errored, attempt_views(attempts@)),
            joined(StreakKind::Errored, attempt_views(attempts@)),
        );
    }
    assert(all.take(0) =~= Seq::<(int, int)>::empty());
    while i < found.len()
        invariant
            i <= found@.len(),
            turns_inside(attempt_views(attempts@), turns@.len()),
            all == streaks(StreakKind::Errored, attempt_views(attempts@)),
            all == bounds(found@),
            p == (|s: (int, int)| is_run(members_of(attempt_views(attempts@), s), graph)),
            forall|k: int|
                0 <= k < all.len() ==> is_streak(
                    #[trigger] all[k],
                    kept(StreakKind::Errored, attempt_views(attempts@)),
                    joined(StreakKind::Errored, attempt_views(attempts@)),
                ),
            out@.len() == pick(all.take(i as int), p).len(),
            forall|k: int|
                0 <= k < out@.len() ==> is_failure_run(
                    #[trigger] out@[k],
                    session_id@,
                    turns@,
                    members_of(attempt_views(attempts@), pick(all.take(i as int), p)[k]),
                    content@,
                    graph,
                ),
        decreases found@.len() - i,
    {
        let (lo, hi) = found[i];
        assert(all[i as int] == (lo as int, hi as int));
        assert(is_streak(
            all[i as int],
            kept(StreakKind::Errored, attempt_views(attempts@)),
            joined(StreakKind::Errored, attempt_views(attempts@)),
        ));
        assert(all.take(i + 1).drop_last() =~= all.take(i as int));
        assert(all.take(i + 1).last() == (lo as int, hi as int));
        if check_run(attempts, lo, hi, graph) {
            let ghost streak = members_of(attempt_views(attempts@), (lo as int, hi as int));
            assert(streak[0] == attempts@[lo as int]@);
            assert(streak.last() == attempts@[hi - 1]@);
            let sigs = failure_run_signatures(attempts, lo, hi, content);
            assert(signature_views(sigs@).len() == sigs@.len());
            let run = FailureRun {
                session_id: session_id.to_owned(),
                length: (hi - lo) as u64,
                start_turn_index: attempts[lo].turn_index,
                end_turn_index: attempts[hi - 1].turn_index,
                tools_involved: tools_involved(attempts, lo, hi),
                cost_turns: cost_turns(turns, attempts, lo, hi),
                error_signatures: if sigs.len() > 0 {
                    Some(sigs)
                } else {
                    None
                },
                event_source: if graph {
                    Some(coalesce_event_source(attempts, lo, hi))
                } else {
                    None
                },
            };
            assert(is_failure_run(run, session_id@, turns@, streak, content@, graph));
            out.push(run);
        }
        i = i + 1;
    }
    assert(all.take(i as int) =~= all);
    out
}

/// Whether the run is the one that the streak makes.
pub open spec fn is_cancellation_run(
    r: CancellationRun,
    session: Seq<char>,
    turns: Seq<TurnRecord>,
    streak: Seq<AttemptView>,
) -> bool {
    &&& r.session_id@ == session
    &&& r.length == streak.len()
    &&& r.start_turn_index == streak[0].turn_index
    &&& r.end_turn_index == streak.last().turn_index
    &&& text::views(r.tools_involved@) == groups::first_seen(tools_of(streak))
    &&& r.cost_turns@ == distinct_turns(turns, turns_of(streak))
    &&& r.event_source == source_of(streak)
}

/// Finds the runs of cancelled calls.
pub fn detect_cancellation_runs(
    session_id: &str,
    turns: &[TurnRecord],
    attempts: &Vec<Attempt>,
) -> (r: Vec<CancellationRun>)
    requires
        turns_inside(attempt_views(attempts@), turns@.len()),
    ensures
        r@.len() == streaks(StreakKind::Cancelled, attempt_views(attempts@)).len(),
        forall|i: int|
            0 <= i < r@.len() ==> is_cancellation_run(
                #[trigger] r@[i],
                session_id@,
                turns@,
                members_of(attempt_views(attempts@), streaks(StreakKind::Cancelled, attempt_views(attempts@))[i]),
            ),
{
    let found = detect_streaks(StreakKind::Cancelled, attempts);
    let ghost all = streaks(StreakKind::Cancelled, attempt_views(attempts@));
    let mut out: Vec<CancellationRun> = Vec::new();
    let mut i: usize = 0;
    proof {
        lemma_streaks(
            kept(StreakKind::Cancelled, attempt_views(attempts@)),
            joined(StreakKind::Cancelled, attempt_views(attempts@)),
        );
    }
    while i < found.len()
        invariant
            i <= found@.len(),
            turns_inside(attempt_views(attempts@), turns@.len()),
            all == streaks(StreakKind::Cancelled, attempt_views(attempts@)),
            all == bounds(found@),
            forall|k: int|
                0 <= k < all.len() ==> is_streak(
                    #[trigger] all[k],
                    kept(StreakKind::Cancelled, attempt_views(attempts@)),
                    joined(StreakKind::Cancelled, attempt_views(attempts@)),
                ),
            out@.len() == i,
            forall|k: int|
                0 <= k < i ==> is_cancellation_run(
                    #[trigger] out@[k],
                    session_id@,
                    turns@,
                    members_of(attempt_views(attempts@), all[k]),
                ),
        decreases found@.len() - i,
    {
        let (lo, hi) = found[i];
        assert(all[i as int] == (lo as int, hi as int));
        assert(is_streak(
            all[i as int],
            kept(StreakKind::Cancelled, attempt_views(attempts@)),
            joined(StreakKind::Cancelled, attempt_views(attempts@)),
        ));
        let ghost streak = members_of(attempt_views(attempts@), (lo as int, hi as int));
        assert(streak[0] == attempts@[lo as int]@);
        assert(streak.last() == attempts@[hi - 1]@);
        let run = CancellationRun {
            session_id: session_id.to_owned(),
            length: (hi - lo) as u64,
            start_turn_index: attempts[lo].turn_index,
            end_turn_index: attempts[hi - 1].turn_index,
            tools_involved: tools_involved(attempts, lo, hi),
            cost_turns: cost_turns(turns, attempts, lo, hi),
            event_source: coalesce_event_source(attempts, lo, hi),
        };
        assert(is_cancellation_run(run, session_id@, turns@, streak));
        out.push(run);
        i = i + 1;
    }
    out
}

} // verus!
