//! Which tool calls a session's tokens go to.
//!
//! A tool result is paid for once by the turn after the one that made the
//! call, and then again by every later turn in whose cache it rides along.
//! The shares are kept as exact fractions; the application prices them.

use crate::groups;
use crate::records::{
    ContentKind, ContentRecord, ToolCall, ToolResultEventRecord, ToolResultEventSource, TurnRecord,
    Usage, UserTurnBlock, UserTurnBlockKind, UserTurnRecord,
};
use crate::sessions;
use crate::text;
use vstd::prelude::*;

verus! {

/// How the tokens of a session were shared out.
#[derive(Debug, Clone, Copy, PartialEq, Eq, Structural, Hash)]
pub enum AttributionMethod {
    /// In proportion to the known sizes of the results.
    Sized,
    /// Evenly, for want of any size.
    EvenSplit,
}

/// A share in the tokens of one turn: `weight / total` of `pool` tokens.
#[derive(Debug, Clone, Copy, PartialEq, Eq, Structural)]
pub struct Share {
    /// The position of the paying turn.
    pub turn: usize,
    pub weight: u64,
    pub total: u128,
    pub pool: u128,
}

/// What a [`Share`] says.
#[verifier::ext_equal]
pub struct ShareView {
    pub turn: int,
    pub weight: int,
    pub total: int,
    pub pool: int,
}

impl View for Share {
    type V = ShareView;

    open spec fn view(&self) -> ShareView {
        ShareView {
            turn: self.turn as int,
            weight: self.weight as int,
            total: self.total as int,
            pool: self.pool as int,
        }
    }
}

/// One tool call with its shares.
#[derive(Debug, Clone, PartialEq)]
pub struct ToolRow {
    pub tool_use_id: String,
    pub tool_name: String,
    pub target: Option<String>,
    pub args_hash: String,
    pub session_id: String,
    pub emit_turn_index: u64,
    pub emit_ts: String,
    pub model: String,
    pub project: Option<String>,
    pub project_key: Option<String>,
    pub subagent_type: Option<String>,
    pub result_tokens: u64,
    pub result_bytes_estimated: bool,
    pub output_bytes: Option<u64>,
    pub output_truncated: Option<bool>,
    /// The share in the turn that first paid for the result.
    pub initial: Option<Share>,
    /// The shares in the turns in whose cache the result rode along.
    pub rides: Vec<Share>,
}

/// The tokens of one session shared out.
pub struct SessionAttribution {
    pub session_id: String,
    /// The positions of the turns of the session in the order of their indices.
    pub turns: Vec<usize>,
    pub method: AttributionMethod,
    pub rows: Vec<ToolRow>,
}

/// Records kept under a session id.
pub struct BySession<T> {
    pub session_id: String,
    pub records: Vec<T>,
}

/// The position of the first list kept under `id`; the length if there is none.
pub open spec fn session_slot<T>(lists: Seq<BySession<T>>, id: Seq<char>) -> int
    decreases lists.len(),
{
    if lists.len() == 0 {
        0
    } else if lists[0].session_id@ == id {
        0
    } else {
        1 + session_slot(lists.drop_first(), id)
    }
}

/// The records kept under `id`.
pub open spec fn records_of<T>(lists: Seq<BySession<T>>, id: Seq<char>) -> Seq<T> {
    let at = session_slot(lists, id);
    if at < lists.len() {
        lists[at].records@
    } else {
        Seq::empty()
    }
}

/// The position of the first list kept under `id`.
pub fn find_session<T>(lists: &[BySession<T>], id: &str) -> (r: Option<usize>)
    ensures
        match r {
            Some(at) => at == session_slot(lists@, id@) && at < lists@.len(),
            None => session_slot(lists@, id@) == lists@.len(),
        },
{
    let mut i: usize = 0;
    assert(lists@.skip(0) =~= lists@);
    while i < lists.len()
        invariant
            i <= lists@.len(),
            session_slot(lists@, id@) == i + session_slot(lists@.skip(i as int), id@),
        decreases lists@.len() - i,
    {
        assert(lists@.skip(i as int)[0] == lists@[i as int]);
        if text::same(lists[i].session_id.as_str(), id) {
            return Some(i);
        }
        assert(lists@.skip(i as int).drop_first() =~= lists@.skip(i + 1));
        i = i + 1;
    }
    None
}

/// Number of UTF-16 code units of `s`.
pub open spec fn utf16_len(s: Seq<char>) -> nat
    decreases s.len(),
{
    if s.len() == 0 {
        0
    } else {
        utf16_len(s.drop_last()) + (if s.last() as int >= 0x10000 {
            2nat
        } else {
            1nat
        })
    }
}

fn is_wide(c: char) -> (r: bool)
    ensures
        r == (c as int >= 0x10000),
{
    let n: u32 = c as u32;
    n >= 0x10000
}

/// Tokens that a text is taken for: a quarter of its UTF-16 units, rounded up.
pub fn tokens_from_utf16_len(s: &str) -> (r: u64)
    ensures
        r == (utf16_len(s@) + 3) / 4,
{
    let cs = text::chars_of(s);
    let mut n: u128 = 0;
    let mut i: usize = 0;
    assert(cs@.take(0) =~= Seq::<char>::empty());
    while i < cs.len()
        invariant
            i <= cs@.len(),
            n == utf16_len(cs@.take(i as int)),
            n <= 2 * i,
        decreases cs@.len() - i,
    {
        let ghost t = cs@.take(i + 1);
        assert(t.drop_last() =~= cs@.take(i as int));
        assert(t.last() == cs@[i as int]);
        if is_wide(cs[i]) {
            n = n + 2;
        } else {
            n = n + 1;
        }
        assert(utf16_len(t) == n);
        i = i + 1;
    }
    assert(cs@.take(i as int) =~= cs@);
    ((n + 3) / 4) as u64
}

/// Whether the block is the result of the tool use `id`.
pub open spec fn block_of(b: UserTurnBlock, id: Seq<char>) -> bool {
    b.kind == UserTurnBlockKind::ToolResult && text::opt_view(b.tool_use_id) == Some(id)
}

/// The size that the last of the blocks for the tool use `id` gives.
pub open spec fn block_size(blocks: Seq<UserTurnBlock>, id: Seq<char>) -> Option<u64>
    decreases blocks.len(),
{
    if blocks.len() == 0 {
        None
    } else if block_of(blocks.last(), id) {
        Some(blocks.last().approx_tokens)
    } else {
        block_size(blocks.drop_last(), id)
    }
}

/// The size that the last user turn with a block for `id` gives.
pub open spec fn user_size(turns: Seq<UserTurnRecord>, id: Seq<char>) -> Option<u64>
    decreases turns.len(),
{
    if turns.len() == 0 {
        None
    } else {
        match block_size(turns.last().blocks@, id) {
            Some(n) => Some(n),
            None => user_size(turns.drop_last(), id),
        }
    }
}

/// The text of the tool result in the record, if it is one for `id`.
pub open spec fn result_text(c: ContentRecord, id: Seq<char>) -> Option<Seq<char>> {
    match c.tool_result {
        Some(tr) => if c.kind == ContentKind::ToolResult && tr.tool_use_id@ == id {
            Some(tr.content@)
        } else {
            None
        },
        None => None,
    }
}

/// The size of the last captured result for `id`.
pub open spec fn content_size(content: Seq<ContentRecord>, id: Seq<char>) -> Option<u64>
    decreases content.len(),
{
    if content.len() == 0 {
        None
    } else {
        match result_text(content.last(), id) {
            Some(t) => Some(((utf16_len(t) + 3) / 4) as u64),
            None => content_size(content.drop_last(), id),
        }
    }
}

/// The size of the result of the tool use `id`: what the user turns say, else
/// an estimate from the captured content, else 0.
pub open spec fn result_size(
    users: Seq<UserTurnRecord>,
    content: Seq<ContentRecord>,
    id: Seq<char>,
) -> u64 {
    match user_size(users, id) {
        Some(n) => n,
        None => match content_size(content, id) {
            Some(n) => n,
            None => 0,
        },
    }
}

/// Whether one of the turns at `members` made the call `id`.
pub open spec fn is_emitted(turns: Seq<TurnRecord>, members: Seq<usize>, id: Seq<char>) -> bool {
    exists|i: int, j: int|
        0 <= i < members.len() && 0 <= j < turns[members[i] as int].tool_calls@.len()
            && #[trigger] turns[members[i] as int].tool_calls@[j].id@ == id
}

/// Whether the user turns size any tool result.
pub open spec fn users_size_any(users: Seq<UserTurnRecord>) -> bool {
    exists|i: int, j: int|
        0 <= i < users.len() && 0 <= j < users[i].blocks@.len() && (
        #[trigger] users[i].blocks@[j]).kind == UserTurnBlockKind::ToolResult
            && users[i].blocks@[j].tool_use_id is Some
}

/// Whether the captured content sizes any tool result of the session.
pub open spec fn content_size_any(
    turns: Seq<TurnRecord>,
    members: Seq<usize>,
    content: Seq<ContentRecord>,
) -> bool {
    exists|i: int|
        0 <= i < content.len() && (#[trigger] content[i]).kind == ContentKind::ToolResult
            && content[i].tool_result is Some && is_emitted(
            turns,
            members,
            content[i].tool_result->Some_0.tool_use_id@,
        )
}

/// Whether the report carries the output of the tool itself.
pub open spec fn is_primary(e: ToolResultEventRecord) -> bool {
    e.event_source == ToolResultEventSource::ToolResult || e.event_source
        == ToolResultEventSource::FunctionCallOutput
}

/// The first size that a primary report on `id` gives.
pub open spec fn first_bytes(events: Seq<ToolResultEventRecord>, id: Seq<char>) -> Option<u64>
    decreases events.len(),
{
    if events.len() == 0 {
        None
    } else {
        let before = first_bytes(events.drop_last(), id);
        if before is Some {
            before
        } else if is_primary(events.last()) && events.last().tool_use_id@ == id {
            events.last().output_bytes
        } else {
            None
        }
    }
}

/// The first word that a primary report on `id` gives on truncation.
pub open spec fn first_truncated(events: Seq<ToolResultEventRecord>, id: Seq<char>) -> Option<
    bool,
>
    decreases events.len(),
{
    if events.len() == 0 {
        None
    } else {
        let before = first_truncated(events.drop_last(), id);
        if before is Some {
            before
        } else if is_primary(events.last()) && events.last().tool_use_id@ == id {
            events.last().output_truncated
        } else {
            None
        }
    }
}

fn opt_is(o: &Option<String>, id: &str) -> (r: bool)
    ensures
        r == (text::opt_view(*o) == Some(id@)),
{
    match o {
        Some(s) => text::same(s.as_str(), id),
        None => false,
    }
}

fn find_block_size(blocks: &Vec<UserTurnBlock>, id: &str) -> (r: Option<u64>)
    ensures
        r == block_size(blocks@, id@),
{
    let mut i: usize = blocks.len();
    assert(blocks@.take(i as int) =~= blocks@);
    while i > 0
        invariant
            i <= blocks@.len(),
            block_size(blocks@, id@) == block_size(blocks@.take(i as int), id@),
        decreases i,
    {
        assert(blocks@.take(i as int).drop_last() =~= blocks@.take(i - 1));
        let b = &blocks[i - 1];
        if b.kind == UserTurnBlockKind::ToolResult && opt_is(&b.tool_use_id, id) {
            return Some(b.approx_tokens);
        }
        i = i - 1;
    }
    None
}

fn find_user_size(users: &[UserTurnRecord], id: &str) -> (r: Option<u64>)
    ensures
        r == user_size(users@, id@),
{
    let mut i: usize = users.len();
    assert(users@.take(i as int) =~= users@);
    while i > 0
        invariant
            i <= users@.len(),
            user_size(users@, id@) == user_size(users@.take(i as int), id@),
        decreases i,
    {
        assert(users@.take(i as int).drop_last() =~= users@.take(i - 1));
        match find_block_size(&users[i - 1].blocks, id) {
            Some(n) => {
                return Some(n);
            },
            None => {},
        }
        i = i - 1;
    }
    None
}

fn find_content_size(content: &[ContentRecord], id: &str) -> (r: Option<u64>)
    ensures
        r == content_size(content@, id@),
{
    let mut i: usize = content.len();
    assert(content@.take(i as int) =~= content@);
    while i > 0
        invariant
            i <= content@.len(),
            content_size(content@, id@) == content_size(content@.take(i as int), id@),
        decreases i,
    {
        assert(content@.take(i as int).drop_last() =~= content@.take(i - 1));
        let c = &content[i - 1];
        match &c.tool_result {
            Some(tr) => {
                if c.kind == ContentKind::ToolResult && text::same(tr.tool_use_id.as_str(), id) {
                    return Some(tokens_from_utf16_len(tr.content.as_str()));
                }
            },
            None => {},
        }
        i = i - 1;
    }
    None
}

fn find_result_size(users: &[UserTurnRecord], content: &[ContentRecord], id: &str) -> (r: u64)
    ensures
        r == result_size(users@, content@, id@),
{
    match find_user_size(users, id) {
        Some(n) => n,
        None => match find_content_size(content, id) {
            Some(n) => n,
            None => 0,
        },
    }
}

fn emits(turns: &[TurnRecord], members: &Vec<usize>, id: &str) -> (r: bool)
    requires
        forall|i: int| 0 <= i < members@.len() ==> (#[trigger] members@[i]) < turns@.len(),
    ensures
        r == is_emitted(turns@, members@, id@),
{
    let mut i: usize = 0;
    while i < members.len()
        invariant
            i <= members@.len(),
            forall|i: int| 0 <= i < members@.len() ==> (#[trigger] members@[i]) < turns@.len(),
            forall|a: int, b: int|
                0 <= a < i && 0 <= b < turns@[members@[a] as int].tool_calls@.len()
                    ==> #[trigger] turns@[members@[a] as int].tool_calls@[b].id@ != id@,
        decreases members@.len() - i,
    {
        let t = &turns[members[i]];
        let mut j: usize = 0;
        while j < t.tool_calls.len()
            invariant
                j <= t.tool_calls@.len(),
                i < members@.len(),
                *t == turns@[members@[i as int] as int],
                forall|b: int| 0 <= b < j ==> #[trigger] t.tool_calls@[b].id@ != id@,
            decreases t.tool_calls@.len() - j,
        {
            if text::same(t.tool_calls[j].id.as_str(), id) {
                assert(turns@[members@[i as int] as int].tool_calls@[j as int].id@ == id@);
                return true;
            }
            j = j + 1;
        }
        i = i + 1;
    }
    false
}

fn any_user_size(users: &[UserTurnRecord]) -> (r: bool)
    ensures
        r == users_size_any(users@),
{
    let mut i: usize = 0;
    while i < users.len()
        invariant
            i <= users@.len(),
            forall|a: int, b: int|
                0 <= a < i && 0 <= b < users@[a].blocks@.len() ==> !((
                #[trigger] users@[a].blocks@[b]).kind == UserTurnBlockKind::ToolResult
                    && users@[a].blocks@[b].tool_use_id is Some),
        decreases users@.len() - i,
    {
        let u = &users[i];
        let mut j: usize = 0;
        while j < u.blocks.len()
            invariant
                j <= u.blocks@.len(),
                i < users@.len(),
                *u == users@[i as int],
                forall|b: int|
                    0 <= b < j ==> !((#[trigger] u.blocks@[b]).kind
                        == UserTurnBlockKind::ToolResult && u.blocks@[b].tool_use_id is Some),
            decreases u.blocks@.len() - j,
        {
            if u.blocks[j].kind == UserTurnBlockKind::ToolResult
                && u.blocks[j].tool_use_id.is_some() {
                assert(users@[i as int].blocks@[j as int].tool_use_id is Some);
                return true;
            }
            j = j + 1;
        }
        i = i + 1;
    }
    false
}

fn any_content_size(turns: &[TurnRecord], members: &Vec<usize>, content: &[ContentRecord]) -> (r:
    bool)
    requires
        forall|i: int| 0 <= i < members@.len() ==> (#[trigger] members@[i]) < turns@.len(),
    ensures
        r == content_size_any(turns@, members@, content@),
{
    let mut i: usize = 0;
    while i < content.len()
        invariant
            i <= content@.len(),
            forall|i: int| 0 <= i < members@.len() ==> (#[trigger] members@[i]) < turns@.len(),
            forall|a: int|
                0 <= a < i ==> !((#[trigger] content@[a]).kind == ContentKind::ToolResult
                    && content@[a].tool_result is Some && is_emitted(
                    turns@,
                    members@,
                    content@[a].tool_result->Some_0.tool_use_id@,
                )),
        decreases content@.len() - i,
    {
        let c = &content[i];
        match &c.tool_result {
            Some(tr) => {
                if c.kind == ContentKind::ToolResult && emits(
                    turns,
                    members,
                    tr.tool_use_id.as_str(),
                ) {
                    assert(content@[i as int].tool_result is Some);
                    return true;
                }
            },
            None => {},
        }
        i = i + 1;
    }
    false
}

fn find_bytes(events: &[ToolResultEventRecord], id: &str) -> (r: (Option<u64>, Option<bool>))
    ensures
        r.0 == first_bytes(events@, id@),
        r.1 == first_truncated(events@, id@),
{
    let mut bytes: Option<u64> = None;
    let mut truncated: Option<bool> = None;
    let mut i: usize = 0;
    assert(events@.take(0) =~= Seq::<ToolResultEventRecord>::empty());
    while i < events.len()
        invariant
            i <= events@.len(),
            bytes == first_bytes(events@.take(i as int), id@),
            truncated == first_truncated(events@.take(i as int), id@),
        decreases events@.len() - i,
    {
        assert(events@.take(i + 1).drop_last() =~= events@.take(i as int));
        let e = &events[i];
        let primary = e.event_source == ToolResultEventSource::ToolResult || e.event_source
            == ToolResultEventSource::FunctionCallOutput;
        if primary && text::same(e.tool_use_id.as_str(), id) {
            if bytes.is_none() {
                bytes = e.output_bytes;
            }
            if truncated.is_none() {
                truncated = e.output_truncated;
            }
        }
        i = i + 1;
    }
    assert(events@.take(i as int) =~= events@);
    (bytes, truncated)
}

/// The type of the subagent that the call spawns: its target, if it spawns one.
pub open spec fn spawned_type(call: ToolCall) -> Option<Seq<char>> {
    if call.name@ == "Agent"@ || call.name@ == "Task"@ {
        text::opt_view(call.target)
    } else {
        None
    }
}

/// Whether the row stands for the call `call` of the turn `t`.
pub open spec fn stands_for(
    row: ToolRow,
    t: TurnRecord,
    call: ToolCall,
    sized: bool,
    users: Seq<UserTurnRecord>,
    content: Seq<ContentRecord>,
    events: Seq<ToolResultEventRecord>,
) -> bool {
    &&& row.tool_use_id@ == call.id@
    &&& row.tool_name@ == call.name@
    &&& text::opt_view(row.target) == text::opt_view(call.target)
    &&& row.args_hash@ == call.args_hash@
    &&& row.session_id@ == t.session_id@
    &&& row.emit_turn_index == t.turn_index
    &&& row.emit_ts@ == t.ts@
    &&& row.model@ == t.model@
    &&& text::opt_view(row.project) == text::opt_view(t.project)
    &&& text::opt_view(row.project_key) == text::opt_view(t.project_key)
    &&& text::opt_view(row.subagent_type) == spawned_type(call)
    &&& row.result_tokens == result_size(users, content, call.id@)
    &&& row.result_bytes_estimated == sized
    &&& row.output_bytes == first_bytes(events, call.id@)
    &&& row.output_truncated == first_truncated(events, call.id@)
}

/// The shares of one tool result.
#[verifier::ext_equal]
pub struct RowShares {
    pub weight: int,
    pub initial: Option<ShareView>,
    pub rides: Seq<ShareView>,
}

/// What each share says.
pub open spec fn share_views(s: Seq<Share>) -> Seq<ShareView> {
    s.map_values(|x: Share| x@)
}

/// The shares of a row.
pub open spec fn shares_of(row: ToolRow) -> RowShares {
    RowShares {
        weight: row.result_tokens as int,
        initial: match row.initial {
            Some(s) => Some(s@),
            None => None,
        },
        rides: share_views(row.rides@),
    }
}

/// The shares after some turns: those from `pending` on have not paid yet.
#[verifier::ext_equal]
pub struct Ledger {
    pub rows: Seq<RowShares>,
    pub pending: int,
}

/// The new content that a turn pays for.
pub open spec fn new_content(u: Usage) -> int {
    u.input + u.cache_create_5m + u.cache_create_1h
}

/// The weights of the rows from `lo` up to `hi`.
pub open spec fn weight_sum(rows: Seq<RowShares>, lo: int, hi: int) -> int
    decreases hi - lo,
{
    if hi <= lo {
        0
    } else {
        weight_sum(rows, lo, hi - 1) + rows[hi - 1].weight
    }
}

/// Whether the result still rides in a cache of `cache_read` tokens.
pub open spec fn still_cached(row: RowShares, cache_read: int) -> bool {
    row.weight > 0 && cache_read >= row.weight
}

/// The weights of the rows up to `hi` that still ride.
pub open spec fn cached_sum(rows: Seq<RowShares>, cache_read: int, hi: int) -> int
    decreases hi,
{
    if hi <= 0 {
        0
    } else {
        cached_sum(rows, cache_read, hi - 1) + (if still_cached(rows[hi - 1], cache_read) {
            rows[hi - 1].weight
        } else {
            0
        })
    }
}

/// The smaller of two numbers.
pub open spec fn smaller(a: int, b: int) -> int {
    if a <= b {
        a
    } else {
        b
    }
}

/// The share of a pending row in the turn at `at`.
pub open spec fn initial_share(l: Ledger, i: int, sized: bool, at: int, u: Usage) -> Option<
    ShareView,
> {
    let total = weight_sum(l.rows, l.pending, l.rows.len() as int);
    if new_content(u) <= 0 {
        None
    } else if sized {
        if total > 0 {
            Some(
                ShareView {
                    turn: at,
                    weight: l.rows[i].weight,
                    total,
                    pool: smaller(total, new_content(u)),
                },
            )
        } else {
            None
        }
    } else {
        Some(
            ShareView { turn: at, weight: 1, total: l.rows.len() - l.pending, pool: new_content(u) },
        )
    }
}

/// The share of a riding row in the turn at `at`.
pub open spec fn ride_share(l: Ledger, i: int, at: int, u: Usage) -> ShareView {
    let total = cached_sum(l.rows, u.cache_read as int, l.pending);
    ShareView {
        turn: at,
        weight: l.rows[i].weight,
        total,
        pool: smaller(u.cache_read as int, total),
    }
}

/// Row `i` once the turn at `at` has paid.
pub open spec fn paid_row(l: Ledger, i: int, sized: bool, priced: bool, at: int, u: Usage) -> RowShares {
    let row = l.rows[i];
    if !priced {
        row
    } else if i >= l.pending {
        match initial_share(l, i, sized, at, u) {
            Some(s) => RowShares { initial: Some(s), ..row },
            None => row,
        }
    } else if sized && still_cached(row, u.cache_read as int) {
        RowShares { rides: row.rides.push(ride_share(l, i, at, u)), ..row }
    } else {
        row
    }
}

/// The shares once the turn at `at` has paid and made its own calls.
pub open spec fn pay_turn(
    l: Ledger,
    t: TurnRecord,
    at: int,
    sized: bool,
    priced: bool,
    users: Seq<UserTurnRecord>,
    content: Seq<ContentRecord>,
) -> Ledger {
    Ledger {
        rows: Seq::new(l.rows.len(), |i: int| paid_row(l, i, sized, priced, at, t.usage))
            + Seq::new(
            t.tool_calls@.len(),
            |j: int|
                RowShares {
                    weight: result_size(users, content, t.tool_calls@[j].id@) as int,
                    initial: None,
                    rides: Seq::empty(),
                },
        ),
        pending: l.rows.len() as int,
    }
}

/// The shares once all turns at `members` have paid.
pub open spec fn settled(
    turns: Seq<TurnRecord>,
    members: Seq<usize>,
    sized: bool,
    priced: Seq<bool>,
    users: Seq<UserTurnRecord>,
    content: Seq<ContentRecord>,
) -> Ledger
    decreases members.len(),
{
    if members.len() == 0 {
        Ledger { rows: Seq::empty(), pending: 0 }
    } else {
        let m = members.last() as int;
        pay_turn(
            settled(turns, members.drop_last(), sized, priced, users, content),
            turns[m],
            m,
            sized,
            priced[m],
            users,
            content,
        )
    }
}

proof fn lemma_settled_rows(
    turns: Seq<TurnRecord>,
    members: Seq<usize>,
    sized: bool,
    priced: Seq<bool>,
    users: Seq<UserTurnRecord>,
    content: Seq<ContentRecord>,
)
    ensures
        settled(turns, members, sized, priced, users, content).rows.len() == sessions::calls_of(
            turns,
            members,
        ).len(),
        0 <= settled(turns, members, sized, priced, users, content).pending <= settled(
            turns,
            members,
            sized,
            priced,
            users,
            content,
        ).rows.len(),
    decreases members.len(),
{
    if members.len() > 0 {
        lemma_settled_rows(turns, members.drop_last(), sized, priced, users, content);
    }
}

proof fn lemma_weight_sum_bound(rows: Seq<RowShares>, lo: int, hi: int)
    requires
        0 <= lo <= hi <= rows.len(),
        forall|i: int| 0 <= i < rows.len() ==> 0 <= (#[trigger] rows[i]).weight <= u64::MAX,
    ensures
        0 <= weight_sum(rows, lo, hi) <= (hi - lo) * u64::MAX,
    decreases hi - lo,
{
    if lo < hi {
        lemma_weight_sum_bound(rows, lo, hi - 1);
        assert((hi - lo) * u64::MAX == (hi - 1 - lo) * u64::MAX + u64::MAX) by (nonlinear_arith);
    } else {
        assert((hi - lo) * u64::MAX == 0) by (nonlinear_arith)
            requires
                hi == lo,
        ;
    }
}

proof fn lemma_cached_sum_bound(rows: Seq<RowShares>, cache_read: int, hi: int)
    requires
        0 <= hi <= rows.len(),
        forall|i: int| 0 <= i < rows.len() ==> 0 <= (#[trigger] rows[i]).weight <= u64::MAX,
    ensures
        0 <= cached_sum(rows, cache_read, hi) <= hi * u64::MAX,
    decreases hi,
{
    if 0 < hi {
        lemma_cached_sum_bound(rows, cache_read, hi - 1);
        assert(hi * u64::MAX == (hi - 1) * u64::MAX + u64::MAX) by (nonlinear_arith);
    }
}

spec fn row_shares(rows: Seq<ToolRow>) -> Seq<RowShares> {
    rows.map_values(|r: ToolRow| shares_of(r))
}

fn sum_weights(rows: &Vec<ToolRow>, lo: usize) -> (r: u128)
    requires
        lo <= rows@.len(),
    ensures
        r == weight_sum(row_shares(rows@), lo as int, rows@.len() as int),
{
    let ghost v = row_shares(rows@);
    let mut sum: u128 = 0;
    let mut i: usize = lo;
    while i < rows.len()
        invariant
            lo <= i <= rows@.len(),
            v == row_shares(rows@),
            sum == weight_sum(v, lo as int, i as int),
        decreases rows@.len() - i,
    {
        proof {
            lemma_weight_sum_bound(v, lo as int, i + 1);
            assert((i + 1 - lo) * u64::MAX <= usize::MAX * u64::MAX) by (nonlinear_arith)
                requires
                    i + 1 - lo <= usize::MAX,
            ;
            assert(usize::MAX * u64::MAX <= u128::MAX) by (nonlinear_arith);
        }
        assert(v[i as int].weight == rows@[i as int].result_tokens);
        sum = sum + rows[i].result_tokens as u128;
        i = i + 1;
    }
    sum
}

fn sum_cached(rows: &Vec<ToolRow>, cache_read: u64, hi: usize) -> (r: u128)
    requires
        hi <= rows@.len(),
    ensures
        r == cached_sum(row_shares(rows@), cache_read as int, hi as int),
{
    let ghost v = row_shares(rows@);
    let mut sum: u128 = 0;
    let mut i: usize = 0;
    while i < hi
        invariant
            i <= hi <= rows@.len(),
            v == row_shares(rows@),
            sum == cached_sum(v, cache_read as int, i as int),
        decreases hi - i,
    {
        proof {
            lemma_cached_sum_bound(v, cache_read as int, i + 1);
            assert((i + 1) * u64::MAX <= usize::MAX * u64::MAX) by (nonlinear_arith)
                requires
                    i + 1 <= usize::MAX,
            ;
            assert(usize::MAX * u64::MAX <= u128::MAX) by (nonlinear_arith);
        }
        assert(v[i as int].weight == rows@[i as int].result_tokens);
        let w: u64 = rows[i].result_tokens;
        if w > 0 && cache_read >= w {
            sum = sum + w as u128;
        }
        i = i + 1;
    }
    sum
}

/// The rows keep everything but their shares.
spec fn same_calls(a: ToolRow, b: ToolRow) -> bool {
    ToolRow { initial: b.initial, rides: b.rides, ..a } == b
}

fn charge(rows: &mut Vec<ToolRow>, pending: usize, sized: bool, at: usize, u: Usage)
    requires
        pending <= old(rows)@.len(),
    ensures
        final(rows)@.len() == old(rows)@.len(),
        forall|i: int|
            0 <= i < old(rows)@.len() ==> same_calls(old(rows)@[i], #[trigger] final(rows)@[i]),
        row_shares(final(rows)@) =~= Seq::new(
            old(rows)@.len(),
            |i: int|
                paid_row(
                    Ledger { rows: row_shares(old(rows)@), pending: pending as int },
                    i,
                    sized,
                    true,
                    at as int,
                    u,
                ),
        ),
{
    let ghost given = rows@;
    let ghost l = Ledger { rows: row_shares(given), pending: pending as int };
    let n: usize = rows.len();
    let fresh: u128 = u.input as u128 + u.cache_create_5m as u128 + u.cache_create_1h as u128;
    let total: u128 = if sized {
        sum_weights(rows, pending)
    } else {
        (n - pending) as u128
    };
    let pool: u128 = if sized && total < fresh {
        total
    } else {
        fresh
    };
    let charged: bool = fresh > 0 && (!sized || total > 0);
    let cached: u128 = sum_cached(rows, u.cache_read, pending);
    let read: u128 = u.cache_read as u128;
    let ride_pool: u128 = if read <= cached {
        read
    } else {
        cached
    };
    let mut i: usize = 0;
    while i < n
        invariant
            i <= n == rows@.len() == given.len(),
            pending <= n,
            l == (Ledger { rows: row_shares(given), pending: pending as int }),
            fresh == new_content(u),
            total == (if sized {
                weight_sum(l.rows, pending as int, n as int)
            } else {
                n - pending
            }),
            pool == (if sized {
                smaller(total as int, fresh as int)
            } else {
                fresh as int
            }),
            charged == (fresh > 0 && (!sized || total > 0)),
            cached == cached_sum(l.rows, u.cache_read as int, pending as int),
            ride_pool == smaller(u.cache_read as int, cached as int),
            forall|k: int| i <= k < n ==> #[trigger] rows@[k] == given[k],
            forall|k: int|
                0 <= k < i ==> same_calls(given[k], #[trigger] rows@[k]) && shares_of(rows@[k])
                    == paid_row(l, k, sized, true, at as int, u),
        decreases n - i,
    {
        assert(l.rows[i as int] == shares_of(given[i as int]));
        let w: u64 = rows[i].result_tokens;
        if i >= pending {
            if charged {
                let share = Share {
                    turn: at,
                    weight: if sized {
                        w
                    } else {
                        1
                    },
                    total,
                    pool,
                };
                rows[i].initial = Some(share);
                assert(initial_share(l, i as int, sized, at as int, u) == Some(share@));
            }
        } else if sized && w > 0 && u.cache_read >= w {
            let share = Share { turn: at, weight: w, total: cached, pool: ride_pool };
            let ghost before = share_views(rows@[i as int].rides@);
            rows[i].rides.push(share);
            assert(share_views(rows@[i as int].rides@) =~= before.push(share@));
        }
        assert(shares_of(rows@[i as int]) == paid_row(l, i as int, sized, true, at as int, u));
        i = i + 1;
    }
}

fn make_row(
    t: &TurnRecord,
    call: &ToolCall,
    sized: bool,
    users: &[UserTurnRecord],
    content: &[ContentRecord],
    events: &[ToolResultEventRecord],
) -> (r: ToolRow)
    ensures
        stands_for(r, *t, *call, sized, users@, content@, events@),
        r.initial is None,
        r.rides@.len() == 0,
{
    let (output_bytes, output_truncated) = find_bytes(events, call.id.as_str());
    let subagent_type = if text::same(call.name.as_str(), "Agent") || text::same(
        call.name.as_str(),
        "Task",
    ) {
        text::clone_opt(&call.target)
    } else {
        None
    };
    ToolRow {
        tool_use_id: call.id.clone(),
        tool_name: call.name.clone(),
        target: text::clone_opt(&call.target),
        args_hash: call.args_hash.clone(),
        session_id: t.session_id.clone(),
        emit_turn_index: t.turn_index,
        emit_ts: t.ts.clone(),
        model: t.model.clone(),
        project: text::clone_opt(&t.project),
        project_key: text::clone_opt(&t.project_key),
        subagent_type,
        result_tokens: find_result_size(users, content, call.id.as_str()),
        result_bytes_estimated: sized,
        output_bytes,
        output_truncated,
        initial: None,
        rides: Vec::new(),
    }
}

/// Whether sizes are known for the session at `members`.
pub open spec fn is_sized(
    turns: Seq<TurnRecord>,
    members: Seq<usize>,
    users: Seq<UserTurnRecord>,
    content: Seq<ContentRecord>,
) -> bool {
    users_size_any(users) || content_size_any(turns, members, content)
}

/// Shares out the tokens of the session whose turns stand at `members`, in that
/// order. `priced` says which turns have a rate: a turn without one pays for
/// nothing.
pub fn attribute_session(
    turns: &[TurnRecord],
    members: &Vec<usize>,
    priced: &[bool],
    users: &[UserTurnRecord],
    content: &[ContentRecord],
    events: &[ToolResultEventRecord],
) -> (r: (AttributionMethod, Vec<ToolRow>))
    requires
        priced@.len() == turns@.len(),
        forall|i: int| 0 <= i < members@.len() ==> (#[trigger] members@[i]) < turns@.len(),
    ensures
        (r.0 == AttributionMethod::Sized) == is_sized(turns@, members@, users@, content@),
        r.1@.len() == sessions::calls_of(turns@, members@).len(),
        forall|i: int|
            0 <= i < r.1@.len() ==> stands_for(
                #[trigger] r.1@[i],
                turns@[sessions::calls_of(turns@, members@)[i].0],
                turns@[sessions::calls_of(turns@, members@)[i].0].tool_calls@[sessions::calls_of(
                    turns@,
                    members@,
                )[i].1],
                is_sized(turns@, members@, users@, content@),
                users@,
                content@,
                events@,
            ),
        r.1@.map_values(|row: ToolRow| shares_of(row)) == settled(
            turns@,
            members@,
            is_sized(turns@, members@, users@, content@),
            priced@,
            users@,
            content@,
        ).rows,
{
    let sized = any_user_size(users) || any_content_size(turns, members, content);
    let ghost ms = members@;
    let mut rows: Vec<ToolRow> = Vec::new();
    let mut pending: usize = 0;
    let mut i: usize = 0;
    assert(ms.take(0) =~= Seq::<usize>::empty());
    assert(row_shares(rows@) =~= Seq::<RowShares>::empty());
    while i < members.len()
        invariant
            i <= members@.len(),
            ms == members@,
            priced@.len() == turns@.len(),
            forall|i: int| 0 <= i < members@.len() ==> (#[trigger] members@[i]) < turns@.len(),
            row_shares(rows@) == settled(
                turns@,
                ms.take(i as int),
                sized,
                priced@,
                users@,
                content@,
            ).rows,
            pending == settled(
                turns@,
                ms.take(i as int),
                sized,
                priced@,
                users@,
                content@,
            ).pending,
            pending <= rows@.len(),
            rows@.len() == sessions::calls_of(turns@, ms.take(i as int)).len(),
            forall|k: int|
                0 <= k < rows@.len() ==> stands_for(
                    #[trigger] rows@[k],
                    turns@[sessions::calls_of(turns@, ms.take(i as int))[k].0],
                    turns@[sessions::calls_of(turns@, ms.take(i as int))[k].0].tool_calls@[sessions::calls_of(
                        turns@,
                        ms.take(i as int),
                    )[k].1],
                    sized,
                    users@,
                    content@,
                    events@,
                ),
        decreases members@.len() - i,
    {
        let m: usize = members[i];
        let t = &turns[m];
        let ghost l = settled(turns@, ms.take(i as int), sized, priced@, users@, content@);
        let ghost calls = sessions::calls_of(turns@, ms.take(i as int));
        let ghost given = rows@;
        assert(ms.take(i + 1).drop_last() =~= ms.take(i as int));
        assert(ms.take(i + 1).last() == m);
        if priced[m] {
            charge(&mut rows, pending, sized, m, t.usage);
        }
        let ghost next = pay_turn(l, *t, m as int, sized, priced@[m as int], users@, content@);
        let n: usize = rows.len();
        assert(row_shares(rows@) =~= next.rows.take(n as int));
        assert forall|k: int| 0 <= k < n implies same_calls(given[k], #[trigger] rows@[k]) by {}
        pending = n;
        let mut j: usize = 0;
        while j < t.tool_calls.len()
            invariant
                j <= t.tool_calls@.len(),
                n <= rows@.len() == n + j,
                n == given.len() == calls.len() == l.rows.len(),
                next == pay_turn(l, *t, m as int, sized, priced@[m as int], users@, content@),
                row_shares(rows@) == next.rows.take(n + j),
                forall|k: int| 0 <= k < n ==> same_calls(given[k], #[trigger] rows@[k]),
                forall|k: int|
                    n <= k < n + j ==> stands_for(
                        #[trigger] rows@[k],
                        *t,
                        t.tool_calls@[k - n],
                        sized,
                        users@,
                        content@,
                        events@,
                    ),
            decreases t.tool_calls@.len() - j,
        {
            let row = make_row(t, &t.tool_calls[j], sized, users, content, events);
            let ghost before = row_shares(rows@);
            assert(share_views(row.rides@) =~= Seq::<ShareView>::empty());
            rows.push(row);
            assert(row_shares(rows@) =~= before.push(shares_of(row)));
            assert(next.rows.take(n + j + 1) =~= next.rows.take(n + j).push(next.rows[n + j]));
            j = j + 1;
        }
        assert(next.rows.take(n + j) =~= next.rows);
        proof {
            let calls2 = sessions::calls_of(turns@, ms.take(i + 1));
            assert(calls2 =~= calls + Seq::new(t.tool_calls@.len(), |j: int| (m as int, j)));
            assert forall|k: int| 0 <= k < rows@.len() implies stands_for(
                #[trigger] rows@[k],
                turns@[calls2[k].0],
                turns@[calls2[k].0].tool_calls@[calls2[k].1],
                sized,
                users@,
                content@,
                events@,
            ) by {
                if k < n {
                    assert(same_calls(given[k], rows@[k]));
                    assert(calls2[k] == calls[k]);
                } else {
                    assert(calls2[k] == (m as int, k - n));
                }
            }
        }
        i = i + 1;
    }
    assert(ms.take(i as int) =~= ms);
    (
        if sized {
            AttributionMethod::Sized
        } else {
            AttributionMethod::EvenSplit
        },
        rows,
    )
}

/// What a turn is charged for is no more than it paid: the first shares of a
/// turn are parts of a pool that its new content covers, and the shares of the
/// results in its cache are parts of a pool that its cache reads cover.
pub proof fn lemma_pools_are_covered(l: Ledger, i: int, sized: bool, at: int, u: Usage)
    requires
        0 <= i < l.rows.len(),
        0 <= l.pending <= l.rows.len(),
        forall|k: int| 0 <= k < l.rows.len() ==> (#[trigger] l.rows[k]).weight >= 0,
    ensures
        initial_share(l, i, sized, at, u) matches Some(s) ==> 0 <= s.pool <= new_content(u)
            && s.turn == at && (sized ==> s.pool <= s.total && s.total == weight_sum(
            l.rows,
            l.pending,
            l.rows.len() as int,
        )),
        ride_share(l, i, at, u).pool <= u.cache_read,
        ride_share(l, i, at, u).total == cached_sum(l.rows, u.cache_read as int, l.pending),
        ride_share(l, i, at, u).pool <= ride_share(l, i, at, u).total,
{
}

/// Shares out the tokens of every session, sessions in first-seen order.
pub fn attribute_hotspots(
    turns: &[TurnRecord],
    priced: &[bool],
    content: &[BySession<ContentRecord>],
    users: &[BySession<UserTurnRecord>],
    events: &[BySession<ToolResultEventRecord>],
) -> (r: Vec<SessionAttribution>)
    requires
        priced@.len() == turns@.len(),
    ensures
        r@.map_values(|s: SessionAttribution| (s.session_id@, s.turns@)) == sessions::sessions_of(
            turns@,
        ),
        forall|i: int|
            0 <= i < r@.len() ==> session_shared(
                #[trigger] r@[i],
                turns@,
                priced@,
                content@,
                users@,
                events@,
            ),
{
    let found = sessions::group_turns_by_session_sorted(turns);
    let no_content: Vec<ContentRecord> = Vec::new();
    let no_users: Vec<UserTurnRecord> = Vec::new();
    let no_events: Vec<ToolResultEventRecord> = Vec::new();
    assert(no_content@ =~= Seq::<ContentRecord>::empty());
    assert(no_users@ =~= Seq::<UserTurnRecord>::empty());
    assert(no_events@ =~= Seq::<ToolResultEventRecord>::empty());
    let mut out: Vec<SessionAttribution> = Vec::new();
    let mut i: usize = 0;
    while i < found.len()
        invariant
            i <= found@.len(),
            priced@.len() == turns@.len(),
            no_content@ == Seq::<ContentRecord>::empty(),
            no_users@ == Seq::<UserTurnRecord>::empty(),
            no_events@ == Seq::<ToolResultEventRecord>::empty(),
            forall|i: int, j: int|
                #![trigger found@[i].members@[j]]
                0 <= i < found@.len() && 0 <= j < found@[i].members@.len()
                    ==> found@[i].members@[j] < turns@.len(),
            out@.len() == i,
            forall|k: int|
                0 <= k < i ==> (#[trigger] out@[k]).session_id@ == found@[k].key@
                    && out@[k].turns@ == found@[k].members@ && session_shared(
                    out@[k],
                    turns@,
                    priced@,
                    content@,
                    users@,
                    events@,
                ),
        decreases found@.len() - i,
    {
        let g = &found[i];
        assert forall|j: int| 0 <= j < g.members@.len() implies (#[trigger] g.members@[j])
            < turns@.len() by {
            assert(found@[i as int].members@[j] < turns@.len());
        }
        let c: &Vec<ContentRecord> = match find_session(content, g.key.as_str()) {
            Some(at) => &content[at].records,
            None => &no_content,
        };
        let u: &Vec<UserTurnRecord> = match find_session(users, g.key.as_str()) {
            Some(at) => &users[at].records,
            None => &no_users,
        };
        let e: &Vec<ToolResultEventRecord> = match find_session(events, g.key.as_str()) {
            Some(at) => &events[at].records,
            None => &no_events,
        };
        let (method, rows) = attribute_session(turns, &g.members, priced, u, c, e);
        let ghost before = out@;
        out.push(
            SessionAttribution {
                session_id: g.key.clone(),
                turns: g.members.clone(),
                method,
                rows,
            },
        );
        assert(out@[i as int].turns@ =~= g.members@);
        assert(forall|k: int| 0 <= k < i ==> out@[k] == before[k]);
        i = i + 1;
    }
    proof {
        let v = out@.map_values(|s: SessionAttribution| (s.session_id@, s.turns@));
        assert(v =~= groups::group_views(found@));
    }
    out
}

/// Whether the session is shared out as [`attribute_session`] does it, with the
/// records kept under its id.
pub open spec fn session_shared(
    s: SessionAttribution,
    turns: Seq<TurnRecord>,
    priced: Seq<bool>,
    content: Seq<BySession<ContentRecord>>,
    users: Seq<BySession<UserTurnRecord>>,
    events: Seq<BySession<ToolResultEventRecord>>,
) -> bool {
    let c = records_of(content, s.session_id@);
    let u = records_of(users, s.session_id@);
    let e = records_of(events, s.session_id@);
    let calls = sessions::calls_of(turns, s.turns@);
    let sized = is_sized(turns, s.turns@, u, c);
    &&& (s.method == AttributionMethod::Sized) == sized
    &&& s.rows@.len() == calls.len()
    &&& forall|i: int|
        0 <= i < s.rows@.len() ==> stands_for(
            #[trigger] s.rows@[i],
            turns[calls[i].0],
            turns[calls[i].0].tool_calls@[calls[i].1],
            sized,
            u,
            c,
            e,
        )
    &&& s.rows@.map_values(|row: ToolRow| shares_of(row)) == settled(
        turns,
        s.turns@,
        sized,
        priced,
        u,
        c,
    ).rows
}

} // verus!
