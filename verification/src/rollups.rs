//! Tool calls rolled up by file, command, verb, subagent and server.
//!
//! A roll-up lists the rows that it is made of; their costs and tokens, which
//! the application works out, add up to those of the roll-up.

use crate::attempts;
use crate::groups;
use crate::groups::Group;
use crate::hotspots::ToolRow;
use crate::order;
use crate::outside;
use crate::text;
use vstd::prelude::*;

verus! {

/// The groups that come of putting each position under its key. A position
/// without a key is left out.
pub open spec fn keyed(keys: Seq<Option<Seq<char>>>) -> Seq<(Seq<char>, Seq<usize>)>
    decreases keys.len(),
{
    if keys.len() == 0 {
        Seq::empty()
    } else {
        let rest = keyed(keys.drop_last());
        match keys.last() {
            Some(k) => outside::with_item(rest, k, (keys.len() - 1) as usize),
            None => rest,
        }
    }
}

/// The keys that are there.
pub open spec fn opt_views(keys: Seq<Option<String>>) -> Seq<Option<Seq<char>>> {
    keys.map_values(|k: Option<String>| text::opt_view(k))
}

proof fn lemma_entry(entries: Seq<(Seq<char>, Seq<usize>)>, key: Seq<char>)
    ensures
        0 <= outside::entry_position(entries, key) <= entries.len(),
        outside::entry_position(entries, key) < entries.len() ==> entries[outside::entry_position(
            entries,
            key,
        )].0 == key,
        forall|i: int|
            0 <= i < outside::entry_position(entries, key) ==> (#[trigger] entries[i]).0 != key,
    decreases entries.len(),
{
    if entries.len() > 0 && entries[0].0 != key {
        let d = entries.drop_first();
        lemma_entry(d, key);
        assert forall|i: int| 0 <= i < outside::entry_position(entries, key) implies (
        #[trigger] entries[i]).0 != key by {
            if i > 0 {
                assert(d[i - 1] == entries[i]);
            }
        }
    }
}

/// Every group has a position, its positions have its key and rise, no two
/// groups share a key, and no position with a key is lost.
pub proof fn lemma_keyed(keys: Seq<Option<Seq<char>>>)
    requires
        keys.len() <= usize::MAX,
    ensures
        forall|i: int| 0 <= i < keyed(keys).len() ==> (#[trigger] keyed(keys)[i]).1.len() > 0,
        forall|i: int, j: int|
            #![trigger keyed(keys)[i].1[j]]
            0 <= i < keyed(keys).len() && 0 <= j < keyed(keys)[i].1.len() ==> keyed(keys)[i].1[j]
                < keys.len() && keys[keyed(keys)[i].1[j] as int] == Some(keyed(keys)[i].0),
        forall|i: int, j: int|
            0 <= i < j < keyed(keys).len() ==> (#[trigger] keyed(keys)[i]).0 != (
            #[trigger] keyed(keys)[j]).0,
        forall|p: int|
            0 <= p < keys.len() && (#[trigger] keys[p]) is Some ==> exists|i: int|
                0 <= i < keyed(keys).len() && (#[trigger] keyed(keys)[i]).1.contains(p as usize),
    decreases keys.len(),
{
    if keys.len() > 0 {
        let d = keys.drop_last();
        lemma_keyed(d);
        let rest = keyed(d);
        let now = keyed(keys);
        match keys.last() {
            Some(k) => {
                let at = outside::entry_position(rest, k);
                let n = (keys.len() - 1) as usize;
                lemma_entry(rest, k);
                assert forall|i: int, j: int|
                    #![trigger now[i].1[j]]
                    0 <= i < now.len() && 0 <= j < now[i].1.len() implies now[i].1[j] < keys.len()
                    && keys[now[i].1[j] as int] == Some(now[i].0) by {
                    if i < rest.len() && j < rest[i].1.len() {
                        assert(now[i].1[j] == rest[i].1[j]);
                        assert(d[rest[i].1[j] as int] == keys[rest[i].1[j] as int]);
                    }
                }
                assert forall|i: int, j: int| 0 <= i < j < now.len() implies (
                #[trigger] now[i]).0 != (#[trigger] now[j]).0 by {
                    if j < rest.len() {
                        assert(now[i].0 == rest[i].0 && now[j].0 == rest[j].0);
                    } else {
                        assert(now[i].0 == rest[i].0);
                    }
                }
                assert forall|p: int| 0 <= p < keys.len() && (#[trigger] keys[p]) is Some implies
                    exists|i: int|
                    0 <= i < now.len() && (#[trigger] now[i]).1.contains(p as usize) by {
                    if p < d.len() {
                        assert(d[p] == keys[p]);
                        let i = choose|i: int|
                            0 <= i < rest.len() && (#[trigger] rest[i]).1.contains(p as usize);
                        let q = choose|q: int|
                            0 <= q < rest[i].1.len() && rest[i].1[q] == p as usize;
                        assert(now[i].1[q] == p as usize);
                        assert(now[i].1.contains(p as usize));
                    } else {
                        let last = now[at].1.len() - 1;
                        assert(now[at].1[last] == n);
                        assert(now[at].1.contains(p as usize));
                    }
                }
            },
            None => {
                assert forall|i: int, j: int|
                    #![trigger now[i].1[j]]
                    0 <= i < now.len() && 0 <= j < now[i].1.len() implies now[i].1[j] < keys.len()
                    && keys[now[i].1[j] as int] == Some(now[i].0) by {
                    assert(d[rest[i].1[j] as int] == keys[rest[i].1[j] as int]);
                }
                assert forall|p: int| 0 <= p < keys.len() && (#[trigger] keys[p]) is Some implies
                    exists|i: int|
                    0 <= i < now.len() && (#[trigger] now[i]).1.contains(p as usize) by {
                    assert(d[p] == keys[p]);
                }
            },
        }
    }
}

fn group_keyed(keys: &Vec<Option<String>>) -> (r: Vec<Group>)
    ensures
        groups::group_views(r@) == keyed(opt_views(keys@)),
        forall|i: int|
            0 <= i < r@.len() ==> (#[trigger] r@[i]).members@.len() > 0 && attempts::inside(
                r@[i].members@,
                keys@.len(),
            ),
{
    let mut map = outside::index_map_new();
    let ghost all = opt_views(keys@);
    let mut i: usize = 0;
    assert(all.take(0) =~= Seq::<Option<Seq<char>>>::empty());
    while i < keys.len()
        invariant
            i <= keys@.len(),
            all == opt_views(keys@),
            outside::index_entries(map) == keyed(all.take(i as int)),
        decreases keys@.len() - i,
    {
        assert(all.take(i + 1).drop_last() =~= all.take(i as int));
        assert(all.take(i + 1).last() == text::opt_view(keys@[i as int]));
        match &keys[i] {
            Some(k) => {
                outside::index_map_push(&mut map, k.as_str(), i);
            },
            None => {},
        }
        i = i + 1;
    }
    assert(all.take(i as int) =~= all);
    let n: usize = keys.len();
    let mut entries = outside::index_map_into_vec(map);
    let ghost g = keyed(all);
    let ghost given = entries@;
    let mut out: Vec<Group> = Vec::new();
    let ghost mut k: int = 0;
    assert(entries@.skip(0) =~= entries@);
    while entries.len() > 0
        invariant
            0 <= k <= given.len(),
            given.len() == g.len(),
            entries@ == given.skip(k),
            forall|i: int|
                0 <= i < given.len() ==> (#[trigger] given[i]).0@ == g[i].0 && given[i].1@
                    == g[i].1,
            out@.len() == k,
            forall|i: int|
                0 <= i < k ==> (#[trigger] out@[i]).key@ == g[i].0 && out@[i].members@ == g[i].1,
        decreases entries@.len(),
    {
        let e = entries.remove(0);
        proof {
            assert(e == given[k]);
            assert(given.skip(k).remove(0) =~= given.skip(k + 1));
            k = k + 1;
        }
        out.push(Group { key: e.0, members: e.1 });
    }
    proof {
        assert(groups::group_views(out@) =~= g);
        lemma_keyed(all);
        assert forall|i: int| 0 <= i < out@.len() implies (#[trigger] out@[i]).members@.len() > 0
            && attempts::inside(out@[i].members@, keys@.len()) by {
            assert(g[i].1 == out@[i].members@);
            assert forall|j: int| 0 <= j < out@[i].members@.len() implies (
            #[trigger] out@[i].members@[j]) < keys@.len() by {
                assert(g[i].1[j] < all.len());
            }
        }
    }
    out
}

/// The rows of one roll-up.
#[derive(Debug, Clone, PartialEq)]
pub struct Rollup {
    /// The positions of the rows, in order.
    pub rows: Vec<usize>,
    pub call_count: u64,
    /// Number of turns that the results rode along in.
    pub riding_turns: u128,
    pub total_output_bytes: u64,
    pub max_output_bytes: u64,
    /// Number of results that were cut off.
    pub truncated_count: u32,
}

/// Bytes of the result of a row.
pub open spec fn bytes_of(row: ToolRow) -> u64 {
    match row.output_bytes {
        Some(n) => n,
        None => 0,
    }
}

/// Bytes of the results, added up.
pub open spec fn byte_sum(rows: Seq<ToolRow>, at: Seq<usize>) -> nat
    decreases at.len(),
{
    if at.len() == 0 {
        0
    } else {
        byte_sum(rows, at.drop_last()) + bytes_of(rows[at.last() as int]) as nat
    }
}

/// Bytes of the largest result.
pub open spec fn byte_max(rows: Seq<ToolRow>, at: Seq<usize>) -> u64
    decreases at.len(),
{
    if at.len() == 0 {
        0
    } else {
        let rest = byte_max(rows, at.drop_last());
        let n = bytes_of(rows[at.last() as int]);
        if n > rest {
            n
        } else {
            rest
        }
    }
}

/// Number of results that were cut off.
pub open spec fn cut_count(rows: Seq<ToolRow>, at: Seq<usize>) -> nat
    decreases at.len(),
{
    if at.len() == 0 {
        0
    } else {
        cut_count(rows, at.drop_last()) + if rows[at.last() as int].output_truncated == Some(true) {
            1nat
        } else {
            0nat
        }
    }
}

/// Number of turns that the results rode along in.
pub open spec fn ride_sum(rows: Seq<ToolRow>, at: Seq<usize>) -> nat
    decreases at.len(),
{
    if at.len() == 0 {
        0
    } else {
        ride_sum(rows, at.drop_last()) + rows[at.last() as int].rides@.len()
    }
}

/// `n`, or `cap` where that is smaller.
pub open spec fn capped(n: nat, cap: nat) -> nat {
    if n > cap {
        cap
    } else {
        n
    }
}

/// Whether `r` rolls up the rows at `at`. Sums that are too large stand at the
/// largest number.
pub open spec fn is_rollup(r: Rollup, rows: Seq<ToolRow>, at: Seq<usize>) -> bool {
    &&& r.rows@ == at
    &&& r.call_count == at.len()
    &&& r.riding_turns == ride_sum(rows, at)
    &&& r.total_output_bytes == capped(byte_sum(rows, at), u64::MAX as nat)
    &&& r.max_output_bytes == byte_max(rows, at)
    &&& r.truncated_count == capped(cut_count(rows, at), u32::MAX as nat)
}

fn roll_up(rows: &[ToolRow], at: Vec<usize>) -> (r: Rollup)
    requires
        attempts::inside(at@, rows@.len()),
    ensures
        is_rollup(r, rows@, at@),
{
    let mut riding_turns: u128 = 0;
    let mut total: u64 = 0;
    let mut max: u64 = 0;
    let mut cut: u32 = 0;
    let mut i: usize = 0;
    assert(at@.take(0) =~= Seq::<usize>::empty());
    while i < at.len()
        invariant
            i <= at@.len(),
            attempts::inside(at@, rows@.len()),
            riding_turns == ride_sum(rows@, at@.take(i as int)),
            riding_turns <= i * u64::MAX,
            total == capped(byte_sum(rows@, at@.take(i as int)), u64::MAX as nat),
            max == byte_max(rows@, at@.take(i as int)),
            cut == capped(cut_count(rows@, at@.take(i as int)), u32::MAX as nat),
        decreases at@.len() - i,
    {
        assert(at@.take(i + 1).drop_last() =~= at@.take(i as int));
        assert(at@.take(i + 1).last() == at@[i as int]);
        assert((i + 1) * u64::MAX == i * u64::MAX + u64::MAX) by (nonlinear_arith);
        assert((i + 1) * u64::MAX <= u128::MAX) by (nonlinear_arith)
            requires
                i + 1 <= usize::MAX,
        ;
        let row = &rows[at[i]];
        let n: usize = row.rides.len();
        riding_turns = riding_turns + n as u128;
        let bytes: u64 = match row.output_bytes {
            Some(n) => n,
            None => 0,
        };
        total = if bytes > u64::MAX - total {
            u64::MAX
        } else {
            total + bytes
        };
        if bytes > max {
            max = bytes;
        }
        let truncated = match row.output_truncated {
            Some(b) => b,
            None => false,
        };
        if truncated && cut < u32::MAX {
            cut = cut + 1;
        }
        i = i + 1;
    }
    assert(at@.take(i as int) =~= at@);
    Rollup {
        call_count: at.len() as u64,
        rows: at,
        riding_turns,
        total_output_bytes: total,
        max_output_bytes: max,
        truncated_count: cut,
    }
}

/// Calls on one file.
#[derive(Debug, Clone, PartialEq)]
pub struct FileAggregation {
    pub path: String,
    pub calls: Rollup,
    /// The position of the earliest row.
    pub first_emit: usize,
}

/// Calls of one command.
#[derive(Debug, Clone, PartialEq)]
pub struct BashAggregation {
    pub args_hash: String,
    /// The command as it was first seen.
    pub command: Option<String>,
    pub calls: Rollup,
}

/// Calls of one command, as an example.
#[derive(Debug, Clone, PartialEq)]
pub struct Example {
    pub name: String,
    /// The positions of the rows, in order.
    pub rows: Vec<usize>,
}

/// Calls of one verb.
#[derive(Debug, Clone, PartialEq)]
pub struct BashVerbAggregation {
    pub verb: String,
    pub calls: Rollup,
    pub distinct_commands: u64,
    /// The commands, in the order in which they were first seen.
    pub examples: Vec<Example>,
}

/// Calls of one kind of subagent.
#[derive(Debug, Clone, PartialEq)]
pub struct SubagentAggregation {
    pub subagent_type: String,
    pub calls: Rollup,
}

/// Calls of one server.
#[derive(Debug, Clone, PartialEq)]
pub struct McpServerAggregation {
    pub server: String,
    pub calls: Rollup,
    /// The tools, in the order in which they were first seen.
    pub tools: Vec<Example>,
}

/// The file that a row is on.
pub open spec fn file_key(row: ToolRow) -> Option<Seq<char>> {
    let n = row.tool_name@;
    if n == "Read"@ || n == "Edit"@ || n == "Write"@ || n == "NotebookEdit"@ {
        match row.target {
            Some(t) => if t@.len() > 0 {
                Some(t@)
            } else {
                None
            },
            None => None,
        }
    } else {
        None
    }
}

/// The command that a row ran.
pub open spec fn bash_key(row: ToolRow) -> Option<Seq<char>> {
    if row.tool_name@ == "Bash"@ {
        Some(row.args_hash@)
    } else {
        None
    }
}

/// The verb of the command that a row ran; `verb` is what was made out of it.
pub open spec fn verb_key(row: ToolRow, verb: Option<Seq<char>>) -> Option<Seq<char>> {
    if row.tool_name@ == "Bash"@ {
        match verb {
            Some(v) => if row.target is Some {
                Some(v)
            } else {
                Some("(unknown)"@)
            },
            None => Some("(unknown)"@),
        }
    } else {
        None
    }
}

/// The kind of subagent that a row dispatched.
pub open spec fn subagent_key(row: ToolRow) -> Option<Seq<char>> {
    if row.tool_name@ == "Agent"@ || row.tool_name@ == "Task"@ {
        match row.subagent_type {
            Some(t) => Some(t@),
            None => Some("(unknown)"@),
        }
    } else {
        None
    }
}

/// The position of the first `__`; the length where there is none.
pub open spec fn gap_at(s: Seq<char>) -> int
    decreases s.len(),
{
    if s.len() < 2 {
        s.len() as int
    } else if s[0] == '_' && s[1] == '_' {
        0
    } else {
        1 + gap_at(s.drop_first())
    }
}

/// The server and the tool that a name is made of.
pub open spec fn mcp_parts(name: Seq<char>) -> Option<(Seq<char>, Seq<char>)> {
    if !text::has_prefix(name, "mcp__"@) {
        None
    } else {
        let rest = name.skip("mcp__"@.len() as int);
        let at = gap_at(rest);
        if at + 2 < rest.len() && at > 0 {
            Some((rest.take(at), rest.skip(at + 2)))
        } else {
            None
        }
    }
}

/// The server that a row called.
pub open spec fn server_key(row: ToolRow) -> Option<Seq<char>> {
    match mcp_parts(row.tool_name@) {
        Some(p) => Some(p.0),
        None => None,
    }
}

/// The tool of a server that a row called.
pub open spec fn tool_key(row: ToolRow) -> Option<Seq<char>> {
    match mcp_parts(row.tool_name@) {
        Some(p) => Some(p.1),
        None => None,
    }
}

proof fn lemma_gap(s: Seq<char>)
    ensures
        0 <= gap_at(s) <= s.len(),
        gap_at(s) < s.len() ==> gap_at(s) + 2 <= s.len() && s[gap_at(s)] == '_' && s[gap_at(s) + 1]
            == '_',
    decreases s.len(),
{
    if s.len() >= 2 && !(s[0] == '_' && s[1] == '_') {
        lemma_gap(s.drop_first());
        let d = s.drop_first();
        let g = gap_at(d);
        if g < d.len() {
            assert(d[g] == s[g + 1] && d[g + 1] == s[g + 2]);
        }
    }
}

/// A name that splits into a server and a tool is made of the two again.
pub proof fn lemma_mcp_name(name: Seq<char>)
    ensures
        mcp_parts(name) matches Some(p) ==> name == "mcp__"@ + p.0 + "__"@ + p.1 && p.0.len() > 0
            && p.1.len() > 0,
{
    if mcp_parts(name) is Some {
        let n = "mcp__"@.len() as int;
        let rest = name.skip(n);
        let at = gap_at(rest);
        lemma_gap(rest);
        reveal_strlit("__");
        assert("__"@.len() == 2);
        assert("__"@[0] == '_' && "__"@[1] == '_');
        assert(name.take(n) == "mcp__"@);
        assert(name =~= name.take(n) + rest);
        assert(rest =~= rest.take(at) + "__"@ + rest.skip(at + 2)) by {
            assert(rest.subrange(at, at + 2) =~= "__"@);
        }
        assert(name =~= "mcp__"@ + rest.take(at) + "__"@ + rest.skip(at + 2));
    }
}

fn find_gap(s: &Vec<char>, lo: usize) -> (r: usize)
    requires
        lo <= s@.len(),
    ensures
        r == gap_at(s@.skip(lo as int)),
        lo + r <= s@.len(),
{
    let ghost all = s@.skip(lo as int);
    let n: usize = s.len();
    let mut i: usize = lo;
    assert(all.skip(0) =~= all);
    while n - i >= 2
        invariant
            lo <= i <= n,
            n == s@.len(),
            all == s@.skip(lo as int),
            gap_at(all) == (i - lo) + gap_at(all.skip(i - lo)),
        decreases n - i,
    {
        assert(all.skip(i - lo)[0] == s@[i as int]);
        assert(all.skip(i - lo)[1] == s@[i + 1]);
        if s[i] == '_' && s[i + 1] == '_' {
            return i - lo;
        }
        assert(all.skip(i - lo).drop_first() =~= all.skip(i - lo + 1));
        i = i + 1;
    }
    n - lo
}

/// The server and the tool that a name is made of.
pub fn parse_mcp_tool_name(name: &str) -> (r: Option<(String, String)>)
    ensures
        (match r {
            Some(p) => Some((p.0@, p.1@)),
            None => None,
        }) == mcp_parts(name@),
{
    if !text::starts_with(name, "mcp__") {
        return None;
    }
    let cs = text::chars_of(name);
    let n: usize = text::chars_of("mcp__").len();
    let at: usize = find_gap(&cs, n);
    let ghost rest = name@.skip(n as int);
    if at == 0 || cs.len() - n - at <= 2 {
        return None;
    }
    let server = text::string_of(&cs, n, n + at);
    let tool = text::string_of(&cs, n + at + 2, cs.len());
    assert(server@ =~= rest.take(at as int));
    assert(tool@ =~= rest.skip(at + 2));
    Some((server, tool))
}

/// The keys of the rows.
pub open spec fn keys_of(rows: Seq<ToolRow>, key: spec_fn(ToolRow) -> Option<Seq<char>>) -> Seq<
    Option<Seq<char>>,
> {
    rows.map_values(key)
}

/// The position of the earliest row, the first where several are level.
pub open spec fn earliest(rows: Seq<ToolRow>, at: Seq<usize>) -> usize
    decreases at.len(),
{
    if at.len() <= 1 {
        at[0]
    } else {
        let best = earliest(rows, at.drop_last());
        if text::str_lt(rows[at.last() as int].emit_ts@, rows[best as int].emit_ts@) {
            at.last()
        } else {
            best
        }
    }
}

fn find_earliest(rows: &[ToolRow], at: &Vec<usize>) -> (r: usize)
    requires
        attempts::inside(at@, rows@.len()),
        at@.len() > 0,
    ensures
        r == earliest(rows@, at@),
{
    let mut best: usize = at[0];
    let mut i: usize = 1;
    assert(at@.take(1)[0] == at@[0]);
    while i < at.len()
        invariant
            1 <= i <= at@.len(),
            attempts::inside(at@, rows@.len()),
            best < rows@.len(),
            best == earliest(rows@, at@.take(i as int)),
        decreases at@.len() - i,
    {
        assert(at@.take(i + 1).drop_last() =~= at@.take(i as int));
        assert(at@.take(i + 1).last() == at@[i as int]);
        if text::less(rows[at[i]].emit_ts.as_str(), rows[best].emit_ts.as_str()) {
            best = at[i];
        }
        i = i + 1;
    }
    assert(at@.take(i as int) =~= at@);
    best
}

/// The groups of the rows under their keys.
pub open spec fn row_groups(rows: Seq<ToolRow>, key: spec_fn(ToolRow) -> Option<Seq<char>>) -> Seq<
    (Seq<char>, Seq<usize>),
> {
    keyed(keys_of(rows, key))
}

/// Whether the roll-up is that of the group `g`.
pub open spec fn is_file(r: FileAggregation, rows: Seq<ToolRow>, g: (Seq<char>, Seq<usize>)) -> bool {
    &&& r.path@ == g.0
    &&& is_rollup(r.calls, rows, g.1)
    &&& r.first_emit == earliest(rows, g.1)
}

fn find_file_key(row: &ToolRow) -> (r: Option<String>)
    ensures
        text::opt_view(r) == file_key(*row),
{
    let n = row.tool_name.as_str();
    if !(text::same(n, "Read") || text::same(n, "Edit") || text::same(n, "Write") || text::same(
        n,
        "NotebookEdit",
    )) {
        return None;
    }
    match &row.target {
        Some(t) => if t.as_str().is_empty() {
            None
        } else {
            Some(t.clone())
        },
        None => None,
    }
}

/// The calls that read or edit files, rolled up by file.
pub fn aggregate_by_file(rows: &[ToolRow]) -> (r: Vec<FileAggregation>)
    ensures
        ({
            let g = row_groups(rows@, |row: ToolRow| file_key(row));
            &&& r@.len() == g.len()
            &&& forall|i: int| 0 <= i < r@.len() ==> is_file(#[trigger] r@[i], rows@, g[i])
        }),
{
    let ghost f = |row: ToolRow| file_key(row);
    let mut keys: Vec<Option<String>> = Vec::new();
    let mut i: usize = 0;
    while i < rows.len()
        invariant
            i <= rows@.len(),
            keys@.len() == i,
            forall|k: int| 0 <= k < i ==> text::opt_view(#[trigger] keys@[k]) == file_key(rows@[k]),
        decreases rows@.len() - i,
    {
        keys.push(find_file_key(&rows[i]));
        i = i + 1;
    }
    assert(opt_views(keys@) =~= keys_of(rows@, f));
    let mut found = group_keyed(&keys);
    let ghost g = row_groups(rows@, f);
    let ghost given = found@;
    let mut out: Vec<FileAggregation> = Vec::new();
    let ghost mut k: int = 0;
    assert(found@.skip(0) =~= found@);
    assert(groups::group_views(given).len() == given.len());
    while found.len() > 0
        invariant
            0 <= k <= given.len(),
            g == groups::group_views(given),
            found@ == given.skip(k),
            forall|i: int|
                0 <= i < given.len() ==> (#[trigger] given[i]).members@.len() > 0
                    && attempts::inside(given[i].members@, rows@.len()),
            out@.len() == k,
            forall|i: int| 0 <= i < k ==> is_file(#[trigger] out@[i], rows@, g[i]),
        decreases found@.len(),
    {
        let e = found.remove(0);
        proof {
            assert(e == given[k]);
            assert(g[k] == (e.key@, e.members@));
            assert(given.skip(k).remove(0) =~= given.skip(k + 1));
            k = k + 1;
        }
        let first_emit: usize = find_earliest(rows, &e.members);
        out.push(FileAggregation { path: e.key, calls: roll_up(rows, e.members), first_emit });
    }
    out
}

/// Whether the roll-up is that of the group `g`.
pub open spec fn is_bash(r: BashAggregation, rows: Seq<ToolRow>, g: (Seq<char>, Seq<usize>)) -> bool {
    &&& r.args_hash@ == g.0
    &&& is_rollup(r.calls, rows, g.1)
    &&& text::opt_view(r.command) == text::opt_view(rows[g.1[0] as int].target)
}

fn find_bash_keys(rows: &[ToolRow]) -> (r: Vec<Option<String>>)
    ensures
        opt_views(r@) == keys_of(rows@, |row: ToolRow| bash_key(row)),
        r@.len() == rows@.len(),
{
    let ghost f = |row: ToolRow| bash_key(row);
    let mut keys: Vec<Option<String>> = Vec::new();
    let mut i: usize = 0;
    while i < rows.len()
        invariant
            i <= rows@.len(),
            keys@.len() == i,
            forall|k: int| 0 <= k < i ==> text::opt_view(#[trigger] keys@[k]) == bash_key(rows@[k]),
        decreases rows@.len() - i,
    {
        let key = if text::same(rows[i].tool_name.as_str(), "Bash") {
            Some(rows[i].args_hash.clone())
        } else {
            None
        };
        keys.push(key);
        i = i + 1;
    }
    assert(opt_views(keys@) =~= keys_of(rows@, f));
    keys
}

/// The commands, rolled up by what they were called with.
pub fn aggregate_by_bash(rows: &[ToolRow]) -> (r: Vec<BashAggregation>)
    ensures
        ({
            let g = row_groups(rows@, |row: ToolRow| bash_key(row));
            &&& r@.len() == g.len()
            &&& forall|i: int| 0 <= i < r@.len() ==> is_bash(#[trigger] r@[i], rows@, g[i])
        }),
{
    let keys = find_bash_keys(rows);
    let mut found = group_keyed(&keys);
    let ghost g = row_groups(rows@, |row: ToolRow| bash_key(row));
    let ghost given = found@;
    let mut out: Vec<BashAggregation> = Vec::new();
    let ghost mut k: int = 0;
    assert(found@.skip(0) =~= found@);
    assert(groups::group_views(given).len() == given.len());
    while found.len() > 0
        invariant
            0 <= k <= given.len(),
            g == groups::group_views(given),
            found@ == given.skip(k),
            forall|i: int|
                0 <= i < given.len() ==> (#[trigger] given[i]).members@.len() > 0
                    && attempts::inside(given[i].members@, rows@.len()),
            out@.len() == k,
            forall|i: int| 0 <= i < k ==> is_bash(#[trigger] out@[i], rows@, g[i]),
        decreases found@.len(),
    {
        let e = found.remove(0);
        proof {
            assert(e == given[k]);
            assert(g[k] == (e.key@, e.members@));
            assert(given.skip(k).remove(0) =~= given.skip(k + 1));
            assert(e.members@[0] < rows@.len());
            k = k + 1;
        }
        let command = text::clone_opt(&rows[e.members[0]].target);
        out.push(BashAggregation { args_hash: e.key, command, calls: roll_up(rows, e.members) });
    }
    out
}

/// Whether the roll-up is that of the group `g`.
pub open spec fn is_subagent(
    r: SubagentAggregation,
    rows: Seq<ToolRow>,
    g: (Seq<char>, Seq<usize>),
) -> bool {
    r.subagent_type@ == g.0 && is_rollup(r.calls, rows, g.1)
}

fn find_subagent_key(row: &ToolRow) -> (r: Option<String>)
    ensures
        text::opt_view(r) == subagent_key(*row),
{
    let n = row.tool_name.as_str();
    if !(text::same(n, "Agent") || text::same(n, "Task")) {
        return None;
    }
    match &row.subagent_type {
        Some(t) => Some(t.clone()),
        None => Some("(unknown)".to_owned()),
    }
}

/// The calls that dispatch subagents, rolled up by the kind of subagent.
pub fn aggregate_by_subagent(rows: &[ToolRow]) -> (r: Vec<SubagentAggregation>)
    ensures
        ({
            let g = row_groups(rows@, |row: ToolRow| subagent_key(row));
            &&& r@.len() == g.len()
            &&& forall|i: int| 0 <= i < r@.len() ==> is_subagent(#[trigger] r@[i], rows@, g[i])
        }),
{
    let ghost f = |row: ToolRow| subagent_key(row);
    let mut keys: Vec<Option<String>> = Vec::new();
    let mut i: usize = 0;
    while i < rows.len()
        invariant
            i <= rows@.len(),
            keys@.len() == i,
            forall|k: int|
                0 <= k < i ==> text::opt_view(#[trigger] keys@[k]) == subagent_key(rows@[k]),
        decreases rows@.len() - i,
    {
        keys.push(find_subagent_key(&rows[i]));
        i = i + 1;
    }
    assert(opt_views(keys@) =~= keys_of(rows@, f));
    let mut found = group_keyed(&keys);
    let ghost g = row_groups(rows@, f);
    let ghost given = found@;
    let mut out: Vec<SubagentAggregation> = Vec::new();
    let ghost mut k: int = 0;
    assert(found@.skip(0) =~= found@);
    assert(groups::group_views(given).len() == given.len());
    while found.len() > 0
        invariant
            0 <= k <= given.len(),
            g == groups::group_views(given),
            found@ == given.skip(k),
            forall|i: int|
                0 <= i < given.len() ==> attempts::inside(
                    (#[trigger] given[i]).members@,
                    rows@.len(),
                ),
            out@.len() == k,
            forall|i: int| 0 <= i < k ==> is_subagent(#[trigger] out@[i], rows@, g[i]),
        decreases found@.len(),
    {
        let e = found.remove(0);
        proof {
            assert(e == given[k]);
            assert(g[k] == (e.key@, e.members@));
            assert(given.skip(k).remove(0) =~= given.skip(k + 1));
            k = k + 1;
        }
        out.push(SubagentAggregation { subagent_type: e.key, calls: roll_up(rows, e.members) });
    }
    out
}

/// The rows at `at` under a second key: groups of positions in the list of rows.
pub open spec fn subgroups(
    rows: Seq<ToolRow>,
    at: Seq<usize>,
    key: spec_fn(ToolRow) -> Option<Seq<char>>,
) -> Seq<(Seq<char>, Seq<usize>)> {
    keyed(at.map_values(|i: usize| key(rows[i as int]))).map_values(
        |g: (Seq<char>, Seq<usize>)| (g.0, g.1.map_values(|k: usize| at[k as int])),
    )
}

/// The name of a command as an example: its text, or else the start of its hash.
pub open spec fn example_name(row: ToolRow) -> Seq<char> {
    match row.target {
        Some(t) => t@,
        None => "(hash "@ + row.args_hash@.take(
            if row.args_hash@.len() < 8 {
                row.args_hash@.len() as int
            } else {
                8
            },
        ) + ")"@,
    }
}

fn find_example_name(row: &ToolRow) -> (r: String)
    ensures
        r@ == example_name(*row),
{
    match &row.target {
        Some(t) => t.clone(),
        None => {
            let cs = text::chars_of(row.args_hash.as_str());
            let n: usize = if cs.len() < 8 {
                cs.len()
            } else {
                8
            };
            let head = text::string_of(&cs, 0, n);
            assert(cs@.subrange(0, n as int) =~= cs@.take(n as int));
            text::join3("(hash ", head.as_str(), ")")
        },
    }
}

fn group_within(rows: &[ToolRow], at: &Vec<usize>, keys: &Vec<Option<String>>) -> (r: Vec<Group>)
    requires
        attempts::inside(at@, rows@.len()),
        keys@.len() == rows@.len(),
    ensures
        forall|key: spec_fn(ToolRow) -> Option<Seq<char>>|
            opt_views(keys@) == #[trigger] keys_of(rows@, key) ==> groups::group_views(r@)
                == subgroups(rows@, at@, key),
        forall|i: int|
            0 <= i < r@.len() ==> (#[trigger] r@[i]).members@.len() > 0 && attempts::inside(
                r@[i].members@,
                rows@.len(),
            ),
{
    let mut local: Vec<Option<String>> = Vec::new();
    let mut i: usize = 0;
    while i < at.len()
        invariant
            i <= at@.len(),
            attempts::inside(at@, rows@.len()),
            keys@.len() == rows@.len(),
            local@.len() == i,
            forall|k: int| 0 <= k < i ==> #[trigger] local@[k] == keys@[at@[k] as int],
        decreases at@.len() - i,
    {
        local.push(text::clone_opt(&keys[at[i]]));
        i = i + 1;
    }
    let found = group_keyed(&local);
    let ghost lv = opt_views(local@);
    let ghost g = keyed(lv);
    let mut out: Vec<Group> = Vec::new();
    let mut j: usize = 0;
    assert(groups::group_views(found@).len() == found@.len());
    while j < found.len()
        invariant
            j <= found@.len(),
            local@.len() == at@.len(),
            attempts::inside(at@, rows@.len()),
            g == groups::group_views(found@),
            forall|i: int|
                0 <= i < found@.len() ==> (#[trigger] found@[i]).members@.len() > 0
                    && attempts::inside(found@[i].members@, local@.len()),
            out@.len() == j,
            forall|k: int|
                0 <= k < j ==> (#[trigger] out@[k]).key@ == g[k].0 && out@[k].members@
                    == g[k].1.map_values(|k: usize| at@[k as int]),
            forall|k: int|
                0 <= k < j ==> (#[trigger] out@[k]).members@.len() > 0 && attempts::inside(
                    out@[k].members@,
                    rows@.len(),
                ),
        decreases found@.len() - j,
    {
        let members = &found[j].members;
        assert(g[j as int] == (found@[j as int].key@, members@));
        let mut list: Vec<usize> = Vec::new();
        let mut k: usize = 0;
        while k < members.len()
            invariant
                k <= members@.len(),
                attempts::inside(at@, rows@.len()),
                attempts::inside(members@, at@.len()),
                list@.len() == k,
                forall|q: int| 0 <= q < k ==> #[trigger] list@[q] == at@[members@[q] as int],
                attempts::inside(list@, rows@.len()),
            decreases members@.len() - k,
        {
            assert(members@[k as int] < at@.len());
            assert(at@[members@[k as int] as int] < rows@.len());
            list.push(at[members[k]]);
            k = k + 1;
        }
        assert(list@ =~= members@.map_values(|k: usize| at@[k as int]));
        out.push(Group { key: found[j].key.clone(), members: list });
        j = j + 1;
    }
    proof {
        assert forall|key: spec_fn(ToolRow) -> Option<Seq<char>>|
            opt_views(keys@) == #[trigger] keys_of(rows@, key) implies groups::group_views(out@)
            == subgroups(rows@, at@, key) by {
            assert(lv =~= at@.map_values(|i: usize| key(rows@[i as int]))) by {
                assert forall|k: int| 0 <= k < lv.len() implies #[trigger] lv[k] == key(
                    rows@[at@[k] as int],
                ) by {
                    assert(opt_views(keys@)[at@[k] as int] == keys_of(rows@, key)[at@[k] as int]);
                }
            }
            assert(groups::group_views(out@) =~= subgroups(rows@, at@, key));
        }
    }
    out
}

/// Whether the example is that of the group `g` of commands.
pub open spec fn is_command(r: Example, rows: Seq<ToolRow>, g: (Seq<char>, Seq<usize>)) -> bool {
    r.name@ == example_name(rows[g.1[0] as int]) && r.rows@ == g.1
}

/// The verb of each row.
pub open spec fn verb_keys(rows: Seq<ToolRow>, verbs: Seq<Option<Seq<char>>>) -> Seq<
    Option<Seq<char>>,
> {
    Seq::new(rows.len(), |i: int| verb_key(rows[i], verbs[i]))
}

/// Whether the roll-up is that of the group `g`.
pub open spec fn is_verb(r: BashVerbAggregation, rows: Seq<ToolRow>, g: (Seq<char>, Seq<usize>)) -> bool {
    let commands = subgroups(rows, g.1, |row: ToolRow| bash_key(row));
    &&& r.verb@ == g.0
    &&& is_rollup(r.calls, rows, g.1)
    &&& r.distinct_commands == commands.len()
    &&& r.examples@.len() == commands.len()
    &&& forall|i: int|
        0 <= i < commands.len() ==> is_command(#[trigger] r.examples@[i], rows, commands[i])
}

fn find_commands(rows: &[ToolRow], at: &Vec<usize>, hashes: &Vec<Option<String>>) -> (r: Vec<Example>)
    requires
        attempts::inside(at@, rows@.len()),
        hashes@.len() == rows@.len(),
        opt_views(hashes@) == keys_of(rows@, |row: ToolRow| bash_key(row)),
    ensures
        ({
            let g = subgroups(rows@, at@, |row: ToolRow| bash_key(row));
            &&& r@.len() == g.len()
            &&& forall|i: int| 0 <= i < g.len() ==> is_command(#[trigger] r@[i], rows@, g[i])
        }),
{
    let mut found = group_within(rows, at, hashes);
    let ghost f = |row: ToolRow| bash_key(row);
    let ghost g = subgroups(rows@, at@, f);
    assert(groups::group_views(found@) == g) by {
        assert(opt_views(hashes@) == keys_of(rows@, f));
    }
    let ghost given = found@;
    let mut out: Vec<Example> = Vec::new();
    let ghost mut k: int = 0;
    assert(found@.skip(0) =~= found@);
    assert(groups::group_views(given).len() == given.len());
    while found.len() > 0
        invariant
            0 <= k <= given.len(),
            g == groups::group_views(given),
            found@ == given.skip(k),
            forall|i: int|
                0 <= i < given.len() ==> (#[trigger] given[i]).members@.len() > 0
                    && attempts::inside(given[i].members@, rows@.len()),
            out@.len() == k,
            forall|i: int| 0 <= i < k ==> is_command(#[trigger] out@[i], rows@, g[i]),
        decreases found@.len(),
    {
        let e = found.remove(0);
        proof {
            assert(e == given[k]);
            assert(g[k] == (e.key@, e.members@));
            assert(given.skip(k).remove(0) =~= given.skip(k + 1));
            assert(e.members@[0] < rows@.len());
            k = k + 1;
        }
        let name = find_example_name(&rows[e.members[0]]);
        out.push(Example { name, rows: e.members });
    }
    out
}

/// The commands, rolled up by verb. `verbs` says for each row what verb was made
/// out of its command.
pub fn aggregate_by_bash_verb(rows: &[ToolRow], verbs: &[Option<String>]) -> (r: Vec<
    BashVerbAggregation,
>)
    requires
        verbs@.len() == rows@.len(),
    ensures
        ({
            let g = keyed(verb_keys(rows@, opt_views(verbs@)));
            &&& r@.len() == g.len()
            &&& forall|i: int| 0 <= i < r@.len() ==> is_verb(#[trigger] r@[i], rows@, g[i])
        }),
{
    let ghost vv = opt_views(verbs@);
    let hashes = find_bash_keys(rows);
    let mut keys: Vec<Option<String>> = Vec::new();
    let mut i: usize = 0;
    while i < rows.len()
        invariant
            i <= rows@.len(),
            verbs@.len() == rows@.len(),
            vv == opt_views(verbs@),
            keys@.len() == i,
            forall|k: int|
                0 <= k < i ==> text::opt_view(#[trigger] keys@[k]) == verb_key(rows@[k], vv[k]),
        decreases rows@.len() - i,
    {
        let row = &rows[i];
        let key = if text::same(row.tool_name.as_str(), "Bash") {
            match &verbs[i] {
                Some(v) => if row.target.is_some() {
                    Some(v.clone())
                } else {
                    Some("(unknown)".to_owned())
                },
                None => Some("(unknown)".to_owned()),
            }
        } else {
            None
        };
        keys.push(key);
        i = i + 1;
    }
    assert(opt_views(keys@) =~= verb_keys(rows@, vv));
    let mut found = group_keyed(&keys);
    let ghost g = keyed(verb_keys(rows@, vv));
    let ghost given = found@;
    let mut out: Vec<BashVerbAggregation> = Vec::new();
    let ghost mut k: int = 0;
    assert(found@.skip(0) =~= found@);
    assert(groups::group_views(given).len() == given.len());
    while found.len() > 0
        invariant
            0 <= k <= given.len(),
            hashes@.len() == rows@.len(),
            opt_views(hashes@) == keys_of(rows@, |row: ToolRow| bash_key(row)),
            g == groups::group_views(given),
            found@ == given.skip(k),
            forall|i: int|
                0 <= i < given.len() ==> attempts::inside(
                    (#[trigger] given[i]).members@,
                    rows@.len(),
                ),
            out@.len() == k,
            forall|i: int| 0 <= i < k ==> is_verb(#[trigger] out@[i], rows@, g[i]),
        decreases found@.len(),
    {
        let e = found.remove(0);
        proof {
            assert(e == given[k]);
            assert(g[k] == (e.key@, e.members@));
            assert(given.skip(k).remove(0) =~= given.skip(k + 1));
            k = k + 1;
        }
        let examples = find_commands(rows, &e.members, &hashes);
        out.push(
            BashVerbAggregation {
                verb: e.key,
                calls: roll_up(rows, e.members),
                distinct_commands: examples.len() as u64,
                examples,
            },
        );
    }
    out
}

/// Whether the example is that of the group `g` of tools.
pub open spec fn is_tool(r: Example, g: (Seq<char>, Seq<usize>)) -> bool {
    r.name@ == g.0 && r.rows@ == g.1
}

/// Whether the roll-up is that of the group `g`.
pub open spec fn is_server(r: McpServerAggregation, rows: Seq<ToolRow>, g: (Seq<char>, Seq<usize>)) -> bool {
    let tools = subgroups(rows, g.1, |row: ToolRow| tool_key(row));
    &&& r.server@ == g.0
    &&& is_rollup(r.calls, rows, g.1)
    &&& r.tools@.len() == tools.len()
    &&& forall|i: int| 0 <= i < tools.len() ==> is_tool(#[trigger] r.tools@[i], tools[i])
}

fn find_tools(rows: &[ToolRow], at: &Vec<usize>, names: &Vec<Option<String>>) -> (r: Vec<Example>)
    requires
        attempts::inside(at@, rows@.len()),
        names@.len() == rows@.len(),
        opt_views(names@) == keys_of(rows@, |row: ToolRow| tool_key(row)),
    ensures
        ({
            let g = subgroups(rows@, at@, |row: ToolRow| tool_key(row));
            &&& r@.len() == g.len()
            &&& forall|i: int| 0 <= i < g.len() ==> is_tool(#[trigger] r@[i], g[i])
        }),
{
    let mut found = group_within(rows, at, names);
    let ghost f = |row: ToolRow| tool_key(row);
    let ghost g = subgroups(rows@, at@, f);
    assert(groups::group_views(found@) == g) by {
        assert(opt_views(names@) == keys_of(rows@, f));
    }
    let ghost given = found@;
    let mut out: Vec<Example> = Vec::new();
    let ghost mut k: int = 0;
    assert(found@.skip(0) =~= found@);
    assert(groups::group_views(given).len() == given.len());
    while found.len() > 0
        invariant
            0 <= k <= given.len(),
            g == groups::group_views(given),
            found@ == given.skip(k),
            out@.len() == k,
            forall|i: int| 0 <= i < k ==> is_tool(#[trigger] out@[i], g[i]),
        decreases found@.len(),
    {
        let e = found.remove(0);
        proof {
            assert(e == given[k]);
            assert(g[k] == (e.key@, e.members@));
            assert(given.skip(k).remove(0) =~= given.skip(k + 1));
            k = k + 1;
        }
        out.push(Example { name: e.key, rows: e.members });
    }
    out
}

/// The calls of tools of servers, rolled up by server.
pub fn aggregate_by_mcp_server(rows: &[ToolRow]) -> (r: Vec<McpServerAggregation>)
    ensures
        ({
            let g = row_groups(rows@, |row: ToolRow| server_key(row));
            &&& r@.len() == g.len()
            &&& forall|i: int| 0 <= i < r@.len() ==> is_server(#[trigger] r@[i], rows@, g[i])
        }),
{
    let ghost f = |row: ToolRow| server_key(row);
    let ghost t = |row: ToolRow| tool_key(row);
    let mut servers: Vec<Option<String>> = Vec::new();
    let mut tools: Vec<Option<String>> = Vec::new();
    let mut i: usize = 0;
    while i < rows.len()
        invariant
            i <= rows@.len(),
            servers@.len() == i,
            tools@.len() == i,
            forall|k: int|
                0 <= k < i ==> text::opt_view(#[trigger] servers@[k]) == server_key(rows@[k]),
            forall|k: int| 0 <= k < i ==> text::opt_view(#[trigger] tools@[k]) == tool_key(rows@[k]),
        decreases rows@.len() - i,
    {
        match parse_mcp_tool_name(rows[i].tool_name.as_str()) {
            Some((server, tool)) => {
                servers.push(Some(server));
                tools.push(Some(tool));
            },
            None => {
                servers.push(None);
                tools.push(None);
            },
        }
        i = i + 1;
    }
    assert(opt_views(servers@) =~= keys_of(rows@, f));
    assert(opt_views(tools@) =~= keys_of(rows@, t));
    let mut found = group_keyed(&servers);
    let ghost g = row_groups(rows@, f);
    let ghost given = found@;
    let mut out: Vec<McpServerAggregation> = Vec::new();
    let ghost mut k: int = 0;
    assert(found@.skip(0) =~= found@);
    assert(groups::group_views(given).len() == given.len());
    while found.len() > 0
        invariant
            0 <= k <= given.len(),
            tools@.len() == rows@.len(),
            opt_views(tools@) == keys_of(rows@, |row: ToolRow| tool_key(row)),
            g == groups::group_views(given),
            found@ == given.skip(k),
            forall|i: int|
                0 <= i < given.len() ==> attempts::inside(
                    (#[trigger] given[i]).members@,
                    rows@.len(),
                ),
            out@.len() == k,
            forall|i: int| 0 <= i < k ==> is_server(#[trigger] out@[i], rows@, g[i]),
        decreases found@.len(),
    {
        let e = found.remove(0);
        proof {
            assert(e == given[k]);
            assert(g[k] == (e.key@, e.members@));
            assert(given.skip(k).remove(0) =~= given.skip(k + 1));
            k = k + 1;
        }
        let named = find_tools(rows, &e.members, &tools);
        out.push(McpServerAggregation { server: e.key, calls: roll_up(rows, e.members), tools: named });
    }
    out
}

/// The files with the largest keys first, ties as they stand.
pub fn rank_files(rows: Vec<FileAggregation>, keys: &[i64]) -> (r: Vec<FileAggregation>)
    requires
        keys@.len() == rows@.len(),
    ensures
        r@ == order::in_rank(rows@, keys@, order::unnamed(rows@.len())),
{
    order::arrange_by_key(rows, keys)
}

/// The commands with the largest keys first, ties as they stand.
pub fn rank_bash(rows: Vec<BashAggregation>, keys: &[i64]) -> (r: Vec<BashAggregation>)
    requires
        keys@.len() == rows@.len(),
    ensures
        r@ == order::in_rank(rows@, keys@, order::unnamed(rows@.len())),
{
    order::arrange_by_key(rows, keys)
}

/// The kinds of subagents with the largest keys first, ties as they stand.
pub fn rank_subagents(rows: Vec<SubagentAggregation>, keys: &[i64]) -> (r: Vec<SubagentAggregation>)
    requires
        keys@.len() == rows@.len(),
    ensures
        r@ == order::in_rank(rows@, keys@, order::unnamed(rows@.len())),
{
    order::arrange_by_key(rows, keys)
}

/// The names of the verbs.
pub open spec fn verb_names(rows: Seq<BashVerbAggregation>) -> Seq<Seq<char>> {
    rows.map_values(|x: BashVerbAggregation| x.verb@)
}

/// The verbs with the largest keys first, ties by name.
pub fn rank_bash_verbs(rows: Vec<BashVerbAggregation>, keys: &[i64]) -> (r: Vec<BashVerbAggregation>)
    requires
        keys@.len() == rows@.len(),
    ensures
        r@ == order::in_rank(rows@, keys@, verb_names(rows@)),
{
    let mut names: Vec<String> = Vec::new();
    let mut i: usize = 0;
    while i < rows.len()
        invariant
            i <= rows@.len(),
            names@.len() == i,
            forall|k: int| 0 <= k < i ==> (#[trigger] names@[k])@ == rows@[k].verb@,
        decreases rows@.len() - i,
    {
        names.push(rows[i].verb.clone());
        i = i + 1;
    }
    assert(text::views(names@) =~= verb_names(rows@));
    order::arrange(rows, keys, names.as_slice())
}

/// The names of the servers.
pub open spec fn server_names(rows: Seq<McpServerAggregation>) -> Seq<Seq<char>> {
    rows.map_values(|x: McpServerAggregation| x.server@)
}

/// The servers with the largest keys first, ties by name.
pub fn rank_mcp_servers(rows: Vec<McpServerAggregation>, keys: &[i64]) -> (r: Vec<McpServerAggregation>)
    requires
        keys@.len() == rows@.len(),
    ensures
        r@ == order::in_rank(rows@, keys@, server_names(rows@)),
{
    let mut names: Vec<String> = Vec::new();
    let mut i: usize = 0;
    while i < rows.len()
        invariant
            i <= rows@.len(),
            names@.len() == i,
            forall|k: int| 0 <= k < i ==> (#[trigger] names@[k])@ == rows@[k].server@,
        decreases rows@.len() - i,
    {
        names.push(rows[i].server.clone());
        i = i + 1;
    }
    assert(text::views(names@) =~= server_names(rows@));
    order::arrange(rows, keys, names.as_slice())
}

/// The names of the examples.
pub open spec fn example_names(v: Seq<Example>) -> Seq<Seq<char>> {
    v.map_values(|e: Example| e.name@)
}

/// How many examples a verb, and how many tools a server, is shown with.
pub const TOP_EXAMPLES: usize = 3;

/// The names of the `TOP_EXAMPLES` examples with the largest keys, ties by name.
pub fn top_examples(examples: &Vec<Example>, keys: &[i64]) -> (r: Vec<String>)
    requires
        keys@.len() == examples@.len(),
    ensures
        text::views(r@) == crate::context_delta::first_of(
            order::ranked(keys@, example_names(examples@)).map_values(
                |i: usize| example_names(examples@)[i as int],
            ),
            TOP_EXAMPLES as int,
        ),
{
    let ghost nv = example_names(examples@);
    let mut names: Vec<String> = Vec::new();
    let mut i: usize = 0;
    while i < examples.len()
        invariant
            i <= examples@.len(),
            names@.len() == i,
            forall|k: int| 0 <= k < i ==> (#[trigger] names@[k])@ == examples@[k].name@,
        decreases examples@.len() - i,
    {
        names.push(examples[i].name.clone());
        i = i + 1;
    }
    assert(text::views(names@) =~= nv);
    let ranks = order::rank(keys, names.as_slice());
    let ghost all = ranks@.map_values(|i: usize| nv[i as int]);
    let mut out: Vec<String> = Vec::new();
    let mut j: usize = 0;
    while j < ranks.len() && j < TOP_EXAMPLES
        invariant
            j <= ranks@.len(),
            j <= TOP_EXAMPLES,
            names@.len() == examples@.len(),
            nv == text::views(names@),
            all == ranks@.map_values(|i: usize| nv[i as int]),
            forall|k: int| 0 <= k < ranks@.len() ==> (#[trigger] ranks@[k]) < names@.len(),
            out@.len() == j,
            forall|k: int| 0 <= k < j ==> (#[trigger] out@[k])@ == all[k],
        decreases ranks@.len() - j,
    {
        out.push(names[ranks[j]].clone());
        j = j + 1;
    }
    assert(text::views(out@) =~= crate::context_delta::first_of(all, TOP_EXAMPLES as int));
    out
}

} // verus!
