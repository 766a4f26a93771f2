//! What the roll-ups of tool calls hold.

use crate::hotspots::ToolRow;
use crate::outside;
use crate::rollups;
use crate::rollups::{
    BashAggregation, BashVerbAggregation, FileAggregation, McpServerAggregation, Rollup,
    SubagentAggregation,
};
use crate::text;
use vstd::prelude::*;

verus! {

/// Whether the positions rise.
pub open spec fn rises(s: Seq<usize>) -> bool {
    forall|i: int, j: int| 0 <= i < j < s.len() ==> #[trigger] s[i] < #[trigger] s[j]
}

proof fn lemma_entry_bound(entries: Seq<(Seq<char>, Seq<usize>)>, key: Seq<char>)
    ensures
        0 <= outside::entry_position(entries, key) <= entries.len(),
    decreases entries.len(),
{
    if entries.len() > 0 && entries[0].0 != key {
        lemma_entry_bound(entries.drop_first(), key);
    }
}

proof fn lemma_keyed_rise(keys: Seq<Option<Seq<char>>>)
    requires
        keys.len() <= usize::MAX,
    ensures
        forall|i: int| 0 <= i < rollups::keyed(keys).len() ==> rises(
            #[trigger] rollups::keyed(keys)[i].1,
        ),
        forall|i: int, j: int|
            #![trigger rollups::keyed(keys)[i].1[j]]
            0 <= i < rollups::keyed(keys).len() && 0 <= j < rollups::keyed(keys)[i].1.len()
                ==> rollups::keyed(keys)[i].1[j] < keys.len(),
    decreases keys.len(),
{
    if keys.len() > 0 {
        let d = keys.drop_last();
        lemma_keyed_rise(d);
        let rest = rollups::keyed(d);
        let now = rollups::keyed(keys);
        match keys.last() {
            Some(k) => {
                lemma_entry_bound(rest, k);
                assert forall|i: int| 0 <= i < now.len() implies rises(#[trigger] now[i].1) by {
                    if i < rest.len() {
                        assert(rises(rest[i].1));
                        assert forall|a: int, b: int| 0 <= a < b < now[i].1.len() implies
                            #[trigger] now[i].1[a] < #[trigger] now[i].1[b] by {
                            assert(now[i].1[a] == rest[i].1[a]);
                            if b < rest[i].1.len() {
                                assert(now[i].1[b] == rest[i].1[b]);
                            }
                        }
                    }
                }
                assert forall|i: int, j: int|
                    #![trigger now[i].1[j]]
                    0 <= i < now.len() && 0 <= j < now[i].1.len() implies now[i].1[j]
                    < keys.len() by {
                    if i < rest.len() && j < rest[i].1.len() {
                        assert(now[i].1[j] == rest[i].1[j]);
                    }
                }
            },
            None => {
                assert forall|i: int, j: int|
                    #![trigger now[i].1[j]]
                    0 <= i < now.len() && 0 <= j < now[i].1.len() implies now[i].1[j]
                    < keys.len() by {
                    assert(now[i].1[j] == rest[i].1[j]);
                }
            },
        }
    }
}

/// The position of the one group that a key has.
proof fn lemma_keyed_at(keys: Seq<Option<Seq<char>>>, p: int) -> (i: int)
    requires
        keys.len() <= usize::MAX,
        0 <= p < keys.len(),
        keys[p] is Some,
    ensures
        0 <= i < rollups::keyed(keys).len(),
        rollups::keyed(keys)[i].0 == keys[p]->Some_0,
        rollups::keyed(keys)[i].1.contains(p as usize),
{
    rollups::lemma_keyed(keys);
    let i = choose|i: int|
        0 <= i < rollups::keyed(keys).len() && (#[trigger] rollups::keyed(keys)[i]).1.contains(
            p as usize,
        );
    let s = rollups::keyed(keys)[i].1;
    let j = choose|j: int| 0 <= j < s.len() && s[j] == p as usize;
    assert(keys[rollups::keyed(keys)[i].1[j] as int] == Some(rollups::keyed(keys)[i].0));
    i
}

proof fn lemma_keyed_in(keys: Seq<Option<Seq<char>>>, i: int, p: int)
    requires
        keys.len() <= usize::MAX,
        0 <= i < rollups::keyed(keys).len(),
        0 <= p < keys.len(),
        rollups::keyed(keys)[i].1.contains(p as usize),
    ensures
        keys[p] == Some(rollups::keyed(keys)[i].0),
{
    rollups::lemma_keyed(keys);
    let s = rollups::keyed(keys)[i].1;
    let j = choose|j: int| 0 <= j < s.len() && s[j] == p as usize;
    assert(keys[rollups::keyed(keys)[i].1[j] as int] == Some(rollups::keyed(keys)[i].0));
}

/// The bytes of the result of a row, 0 where they are not known.
pub open spec fn output_of(row: ToolRow) -> int {
    match row.output_bytes {
        Some(n) => n as int,
        None => 0,
    }
}

/// Whether the roll-up adds up the rows that it lists, each of them once: how
/// many they are, in how many turns their results rode along, how many bytes
/// the results had in all and at most, and how many were cut off. A sum that
/// does not fit stands at the largest number.
pub open spec fn adds_up(r: Rollup, rows: Seq<ToolRow>) -> bool {
    let at = r.rows@;
    let bytes = at.fold_left(0int, |n: int, i: usize| n + output_of(rows[i as int]));
    let cut = at.filter(|i: usize| rows[i as int].output_truncated == Some(true)).len();
    &&& rises(at)
    &&& forall|k: int| 0 <= k < at.len() ==> (#[trigger] at[k]) < rows.len()
    &&& r.call_count == at.len()
    &&& r.riding_turns == at.fold_left(0int, |n: int, i: usize| n + rows[i as int].rides@.len())
    &&& bytes <= u64::MAX ==> r.total_output_bytes == bytes
    &&& bytes > u64::MAX ==> r.total_output_bytes == u64::MAX
    &&& cut <= u32::MAX ==> r.truncated_count == cut
    &&& cut > u32::MAX ==> r.truncated_count == u32::MAX
    &&& forall|k: int| 0 <= k < at.len() ==> output_of(rows[#[trigger] at[k] as int])
        <= r.max_output_bytes
    &&& r.max_output_bytes > 0 ==> exists|k: int|
        0 <= k < at.len() && output_of(rows[#[trigger] at[k] as int]) == r.max_output_bytes
}

proof fn lemma_sums(rows: Seq<ToolRow>, at: Seq<usize>)
    ensures
        rollups::ride_sum(rows, at) == at.fold_left(
            0int,
            |n: int, i: usize| n + rows[i as int].rides@.len(),
        ),
        rollups::byte_sum(rows, at) == at.fold_left(
            0int,
            |n: int, i: usize| n + output_of(rows[i as int]),
        ),
        rollups::cut_count(rows, at) == at.filter(
            |i: usize| rows[i as int].output_truncated == Some(true),
        ).len(),
        forall|k: int| 0 <= k < at.len() ==> output_of(rows[#[trigger] at[k] as int])
            <= rollups::byte_max(rows, at),
        rollups::byte_max(rows, at) > 0 ==> exists|k: int|
            0 <= k < at.len() && output_of(rows[#[trigger] at[k] as int]) == rollups::byte_max(
                rows,
                at,
            ),
    decreases at.len(),
{
    reveal(Seq::filter);
    if at.len() > 0 {
        let d = at.drop_last();
        lemma_sums(rows, d);
        let most = rollups::byte_max(rows, at);
        assert forall|k: int| 0 <= k < at.len() implies output_of(rows[#[trigger] at[k] as int])
            <= most by {
            if k < d.len() {
                assert(d[k] == at[k]);
            }
        }
        if most > 0 {
            if output_of(rows[at.last() as int]) == most {
                assert(at[at.len() - 1] == at.last());
            } else {
                let k = choose|k: int|
                    0 <= k < d.len() && output_of(rows[#[trigger] d[k] as int])
                        == rollups::byte_max(rows, d);
                assert(at[k] == d[k]);
            }
        }
    }
}

proof fn lemma_adds_up(r: Rollup, rows: Seq<ToolRow>, keys: Seq<Option<Seq<char>>>, i: int)
    requires
        keys.len() == rows.len() <= usize::MAX,
        0 <= i < rollups::keyed(keys).len(),
        rollups::is_rollup(r, rows, rollups::keyed(keys)[i].1),
    ensures
        adds_up(r, rows),
        r.rows@.len() > 0,
{
    let at = rollups::keyed(keys)[i].1;
    rollups::lemma_keyed(keys);
    lemma_keyed_rise(keys);
    lemma_sums(rows, at);
    assert forall|k: int| 0 <= k < at.len() implies (#[trigger] at[k]) < rows.len() by {
        assert(rollups::keyed(keys)[i].1[k] < keys.len());
    }
}

/// Whether the call reads, edits or writes the file.
pub open spec fn on_file(row: ToolRow, path: Seq<char>) -> bool {
    &&& row.tool_name@ == "Read"@ || row.tool_name@ == "Edit"@ || row.tool_name@ == "Write"@
        || row.tool_name@ == "NotebookEdit"@
    &&& path != Seq::<char>::empty()
    &&& row.target matches Some(t) && t@ == path
}

/// What [`rollups::aggregate_by_file`] makes of the rows.
pub open spec fn by_file(r: Seq<FileAggregation>, rows: Seq<ToolRow>) -> bool {
    let g = rollups::row_groups(rows, |row: ToolRow| rollups::file_key(row));
    &&& r.len() == g.len()
    &&& forall|i: int| 0 <= i < r.len() ==> rollups::is_file(#[trigger] r[i], rows, g[i])
}

/// No file call is lost and none is counted twice: a call that reads, edits or
/// writes a file is listed once, in the roll-up of that file. No other call is
/// listed, and each file has one roll-up.
pub proof fn lemma_files(r: Seq<FileAggregation>, rows: Seq<ToolRow>)
    requires
        rows.len() <= usize::MAX,
        by_file(r, rows),
    ensures
        forall|p: int, path: Seq<char>|
            #![trigger on_file(rows[p], path)]
            0 <= p < rows.len() && on_file(rows[p], path) ==> exists|i: int|
                0 <= i < r.len() && (#[trigger] r[i]).path@ == path && r[i].calls.rows@.contains(
                    p as usize,
                ),
        forall|i: int, p: int|
            #![trigger r[i].calls.rows@.contains(p as usize)]
            0 <= i < r.len() && 0 <= p < rows.len() && r[i].calls.rows@.contains(p as usize)
                ==> on_file(rows[p], r[i].path@),
        forall|i: int, j: int|
            0 <= i < j < r.len() ==> (#[trigger] r[i]).path@ != (#[trigger] r[j]).path@,
        forall|i: int| 0 <= i < r.len() ==> adds_up((#[trigger] r[i]).calls, rows),
        forall|i: int| 0 <= i < r.len() ==> is_first((#[trigger] r[i]).first_emit, r[i].calls, rows),
{
    let f = |row: ToolRow| rollups::file_key(row);
    let keys = rollups::keys_of(rows, f);
    let g = rollups::keyed(keys);
    rollups::lemma_keyed(keys);
    assert forall|p: int, path: Seq<char>|
        #![trigger on_file(rows[p], path)]
        0 <= p < rows.len() && on_file(rows[p], path) implies exists|i: int|
        0 <= i < r.len() && (#[trigger] r[i]).path@ == path && r[i].calls.rows@.contains(
            p as usize,
        ) by {
        if path.len() == 0 {
            assert(path =~= Seq::<char>::empty());
        }
        assert(keys[p] == Some(path));
        let i = lemma_keyed_at(keys, p);
        assert(rollups::is_file(r[i], rows, g[i]));
    }
    assert forall|i: int, p: int|
        #![trigger r[i].calls.rows@.contains(p as usize)]
        0 <= i < r.len() && 0 <= p < rows.len() && r[i].calls.rows@.contains(
            p as usize,
        ) implies on_file(rows[p], r[i].path@) by {
        assert(rollups::is_file(r[i], rows, g[i]));
        lemma_keyed_in(keys, i, p);
        assert(keys[p] == rollups::file_key(rows[p]));
    }
    assert forall|i: int, j: int| 0 <= i < j < r.len() implies (#[trigger] r[i]).path@ != (
    #[trigger] r[j]).path@ by {
        assert(g[i].0 != g[j].0);
    }
    assert forall|i: int| 0 <= i < r.len() implies adds_up((#[trigger] r[i]).calls, rows)
        && is_first(r[i].first_emit, r[i].calls, rows) by {
        lemma_adds_up(r[i].calls, rows, keys, i);
        lemma_earliest(rows, r[i].calls.rows@);
    }
}

/// Whether the position is that of the earliest row listed, the first where
/// several are level.
pub open spec fn is_first(p: usize, r: Rollup, rows: Seq<ToolRow>) -> bool {
    &&& r.rows@.contains(p)
    &&& forall|k: int|
        0 <= k < r.rows@.len() ==> !text::str_lt(
            rows[#[trigger] r.rows@[k] as int].emit_ts@,
            rows[p as int].emit_ts@,
        )
    &&& forall|k: int|
        0 <= k < r.rows@.len() && (#[trigger] r.rows@[k]) < p ==> text::str_lt(
            rows[p as int].emit_ts@,
            rows[r.rows@[k] as int].emit_ts@,
        )
}

proof fn lemma_earliest(rows: Seq<ToolRow>, at: Seq<usize>)
    requires
        at.len() > 0,
        rises(at),
    ensures
        at.contains(rollups::earliest(rows, at)),
        forall|k: int|
            0 <= k < at.len() ==> !text::str_lt(
                rows[#[trigger] at[k] as int].emit_ts@,
                rows[rollups::earliest(rows, at) as int].emit_ts@,
            ),
        forall|k: int|
            0 <= k < at.len() && (#[trigger] at[k]) < rollups::earliest(rows, at) ==> text::str_lt(
                rows[rollups::earliest(rows, at) as int].emit_ts@,
                rows[at[k] as int].emit_ts@,
            ),
    decreases at.len(),
{
    let best = rollups::earliest(rows, at);
    let ts = |p: usize| rows[p as int].emit_ts@;
    if at.len() == 1 {
        assert(at[0] == best);
        text::lemma_str_lt(ts(best), ts(best), ts(best));
    } else {
        let d = at.drop_last();
        assert forall|i: int, j: int| 0 <= i < j < d.len() implies #[trigger] d[i]
            < #[trigger] d[j] by {
            assert(at[i] < at[j]);
        }
        lemma_earliest(rows, d);
        let before = rollups::earliest(rows, d);
        let q = choose|q: int| 0 <= q < d.len() && d[q] == before;
        assert(at[q] == before);
        assert(at[at.len() - 1] == at.last());
        assert forall|k: int| 0 <= k < at.len() implies !text::str_lt(
            ts(#[trigger] at[k]),
            ts(best),
        ) && (at[k] < best ==> text::str_lt(ts(best), ts(at[k]))) by {
            text::lemma_str_lt(ts(at[k]), ts(best), ts(at[k]));
            if k < d.len() {
                assert(d[k] == at[k]);
                text::lemma_str_lt(ts(before), ts(at[k]), ts(before));
                text::lemma_str_lt(ts(at[k]), ts(before), ts(best));
                text::lemma_str_lt(ts(at[k]), ts(best), ts(before));
                text::lemma_str_lt(ts(best), ts(before), ts(at[k]));
                text::lemma_str_lt(ts(best), ts(at[k]), ts(best));
            }
            assert(at[q] < at[at.len() - 1]);
        }
    }
}

/// What [`rollups::aggregate_by_bash`] makes of the rows.
pub open spec fn by_bash(r: Seq<BashAggregation>, rows: Seq<ToolRow>) -> bool {
    let g = rollups::row_groups(rows, |row: ToolRow| rollups::bash_key(row));
    &&& r.len() == g.len()
    &&& forall|i: int| 0 <= i < r.len() ==> rollups::is_bash(#[trigger] r[i], rows, g[i])
}

/// Every command is listed once, in the roll-up of the arguments that it was
/// called with, and no other call is. The command shown is that of the first
/// call listed.
pub proof fn lemma_commands(r: Seq<BashAggregation>, rows: Seq<ToolRow>)
    requires
        rows.len() <= usize::MAX,
        by_bash(r, rows),
    ensures
        forall|p: int|
            0 <= p < rows.len() && (#[trigger] rows[p]).tool_name@ == "Bash"@ ==> exists|i: int|
                0 <= i < r.len() && (#[trigger] r[i]).args_hash@ == rows[p].args_hash@
                    && r[i].calls.rows@.contains(p as usize),
        forall|i: int, p: int|
            #![trigger r[i].calls.rows@.contains(p as usize)]
            0 <= i < r.len() && 0 <= p < rows.len() && r[i].calls.rows@.contains(p as usize)
                ==> rows[p].tool_name@ == "Bash"@ && rows[p].args_hash@ == r[i].args_hash@,
        forall|i: int, j: int|
            0 <= i < j < r.len() ==> (#[trigger] r[i]).args_hash@ != (#[trigger] r[j]).args_hash@,
        forall|i: int| 0 <= i < r.len() ==> adds_up((#[trigger] r[i]).calls, rows),
        forall|i: int|
            0 <= i < r.len() ==> (#[trigger] r[i]).calls.rows@.len() > 0 && text::opt_view(
                r[i].command,
            ) == text::opt_view(rows[r[i].calls.rows@[0] as int].target),
{
    let f = |row: ToolRow| rollups::bash_key(row);
    let keys = rollups::keys_of(rows, f);
    let g = rollups::keyed(keys);
    rollups::lemma_keyed(keys);
    assert forall|p: int|
        0 <= p < rows.len() && (#[trigger] rows[p]).tool_name@ == "Bash"@ implies exists|i: int|
        0 <= i < r.len() && (#[trigger] r[i]).args_hash@ == rows[p].args_hash@
            && r[i].calls.rows@.contains(p as usize) by {
        assert(keys[p] == Some(rows[p].args_hash@));
        let i = lemma_keyed_at(keys, p);
        assert(rollups::is_bash(r[i], rows, g[i]));
    }
    assert forall|i: int, p: int|
        #![trigger r[i].calls.rows@.contains(p as usize)]
        0 <= i < r.len() && 0 <= p < rows.len() && r[i].calls.rows@.contains(
            p as usize,
        ) implies rows[p].tool_name@ == "Bash"@ && rows[p].args_hash@ == r[i].args_hash@ by {
        assert(rollups::is_bash(r[i], rows, g[i]));
        lemma_keyed_in(keys, i, p);
        assert(keys[p] == rollups::bash_key(rows[p]));
    }
    assert forall|i: int, j: int| 0 <= i < j < r.len() implies (#[trigger] r[i]).args_hash@ != (
    #[trigger] r[j]).args_hash@ by {
        assert(g[i].0 != g[j].0);
    }
    assert forall|i: int| 0 <= i < r.len() implies adds_up((#[trigger] r[i]).calls, rows)
        && r[i].calls.rows@.len() > 0 by {
        lemma_adds_up(r[i].calls, rows, keys, i);
    }
}

/// Whether the call dispatches a subagent of the kind; one whose kind is not
/// known counts as unknown.
pub open spec fn dispatches(row: ToolRow, kind: Seq<char>) -> bool {
    &&& row.tool_name@ == "Agent"@ || row.tool_name@ == "Task"@
    &&& match row.subagent_type {
        Some(t) => kind == t@,
        None => kind == "(unknown)"@,
    }
}

/// What [`rollups::aggregate_by_subagent`] makes of the rows.
pub open spec fn by_subagent(r: Seq<SubagentAggregation>, rows: Seq<ToolRow>) -> bool {
    let g = rollups::row_groups(rows, |row: ToolRow| rollups::subagent_key(row));
    &&& r.len() == g.len()
    &&& forall|i: int| 0 <= i < r.len() ==> rollups::is_subagent(#[trigger] r[i], rows, g[i])
}

/// Every call that dispatches a subagent is listed once, in the roll-up of its
/// kind, and no other call is.
pub proof fn lemma_subagents(r: Seq<SubagentAggregation>, rows: Seq<ToolRow>)
    requires
        rows.len() <= usize::MAX,
        by_subagent(r, rows),
    ensures
        forall|p: int, kind: Seq<char>|
            #![trigger dispatches(rows[p], kind)]
            0 <= p < rows.len() && dispatches(rows[p], kind) ==> exists|i: int|
                0 <= i < r.len() && (#[trigger] r[i]).subagent_type@ == kind
                    && r[i].calls.rows@.contains(p as usize),
        forall|i: int, p: int|
            #![trigger r[i].calls.rows@.contains(p as usize)]
            0 <= i < r.len() && 0 <= p < rows.len() && r[i].calls.rows@.contains(p as usize)
                ==> dispatches(rows[p], r[i].subagent_type@),
        forall|i: int, j: int|
            0 <= i < j < r.len() ==> (#[trigger] r[i]).subagent_type@ != (
            #[trigger] r[j]).subagent_type@,
        forall|i: int| 0 <= i < r.len() ==> adds_up((#[trigger] r[i]).calls, rows),
{
    let f = |row: ToolRow| rollups::subagent_key(row);
    let keys = rollups::keys_of(rows, f);
    let g = rollups::keyed(keys);
    rollups::lemma_keyed(keys);
    assert forall|p: int, kind: Seq<char>|
        #![trigger dispatches(rows[p], kind)]
        0 <= p < rows.len() && dispatches(rows[p], kind) implies exists|i: int|
        0 <= i < r.len() && (#[trigger] r[i]).subagent_type@ == kind && r[i].calls.rows@.contains(
            p as usize,
        ) by {
        assert(keys[p] == Some(kind));
        let i = lemma_keyed_at(keys, p);
        assert(rollups::is_subagent(r[i], rows, g[i]));
    }
    assert forall|i: int, p: int|
        #![trigger r[i].calls.rows@.contains(p as usize)]
        0 <= i < r.len() && 0 <= p < rows.len() && r[i].calls.rows@.contains(
            p as usize,
        ) implies dispatches(rows[p], r[i].subagent_type@) by {
        assert(rollups::is_subagent(r[i], rows, g[i]));
        lemma_keyed_in(keys, i, p);
        assert(keys[p] == rollups::subagent_key(rows[p]));
    }
    assert forall|i: int, j: int| 0 <= i < j < r.len() implies (#[trigger] r[i]).subagent_type@
        != (#[trigger] r[j]).subagent_type@ by {
        assert(g[i].0 != g[j].0);
    }
    assert forall|i: int| 0 <= i < r.len() implies adds_up((#[trigger] r[i]).calls, rows) by {
        lemma_adds_up(r[i].calls, rows, keys, i);
    }
}

/// Whether the command counts under the verb: the one that was made out of it,
/// or unknown where there was none or no command.
pub open spec fn has_verb(row: ToolRow, made: Option<String>, verb: Seq<char>) -> bool {
    &&& row.tool_name@ == "Bash"@
    &&& if row.target is Some && made is Some {
        verb == made->Some_0@
    } else {
        verb == "(unknown)"@
    }
}

/// What [`rollups::aggregate_by_bash_verb`] makes of the rows.
pub open spec fn by_verb(
    r: Seq<BashVerbAggregation>,
    rows: Seq<ToolRow>,
    verbs: Seq<Option<String>>,
) -> bool {
    let g = rollups::keyed(rollups::verb_keys(rows, rollups::opt_views(verbs)));
    &&& r.len() == g.len()
    &&& forall|i: int| 0 <= i < r.len() ==> rollups::is_verb(#[trigger] r[i], rows, g[i])
}

/// Every command is listed once, in the roll-up of its verb, and no other call
/// is. The examples of a verb are its different commands.
pub proof fn lemma_verbs(
    r: Seq<BashVerbAggregation>,
    rows: Seq<ToolRow>,
    verbs: Seq<Option<String>>,
)
    requires
        rows.len() <= usize::MAX,
        verbs.len() == rows.len(),
        by_verb(r, rows, verbs),
    ensures
        forall|p: int, verb: Seq<char>|
            #![trigger has_verb(rows[p], verbs[p], verb)]
            0 <= p < rows.len() && has_verb(rows[p], verbs[p], verb) ==> exists|i: int|
                0 <= i < r.len() && (#[trigger] r[i]).verb@ == verb && r[i].calls.rows@.contains(
                    p as usize,
                ),
        forall|i: int, p: int|
            #![trigger r[i].calls.rows@.contains(p as usize)]
            0 <= i < r.len() && 0 <= p < rows.len() && r[i].calls.rows@.contains(p as usize)
                ==> has_verb(rows[p], verbs[p], r[i].verb@),
        forall|i: int, j: int|
            0 <= i < j < r.len() ==> (#[trigger] r[i]).verb@ != (#[trigger] r[j]).verb@,
        forall|i: int| 0 <= i < r.len() ==> adds_up((#[trigger] r[i]).calls, rows),
        forall|i: int|
            0 <= i < r.len() ==> (#[trigger] r[i]).distinct_commands == r[i].examples@.len(),
{
    let keys = rollups::verb_keys(rows, rollups::opt_views(verbs));
    let g = rollups::keyed(keys);
    rollups::lemma_keyed(keys);
    assert forall|p: int, verb: Seq<char>|
        #![trigger has_verb(rows[p], verbs[p], verb)]
        0 <= p < rows.len() && has_verb(rows[p], verbs[p], verb) implies exists|i: int|
        0 <= i < r.len() && (#[trigger] r[i]).verb@ == verb && r[i].calls.rows@.contains(
            p as usize,
        ) by {
        assert(rollups::opt_views(verbs)[p] == text::opt_view(verbs[p]));
        assert(keys[p] == Some(verb));
        let i = lemma_keyed_at(keys, p);
        assert(rollups::is_verb(r[i], rows, g[i]));
    }
    assert forall|i: int, p: int|
        #![trigger r[i].calls.rows@.contains(p as usize)]
        0 <= i < r.len() && 0 <= p < rows.len() && r[i].calls.rows@.contains(
            p as usize,
        ) implies has_verb(rows[p], verbs[p], r[i].verb@) by {
        assert(rollups::is_verb(r[i], rows, g[i]));
        lemma_keyed_in(keys, i, p);
        assert(rollups::opt_views(verbs)[p] == text::opt_view(verbs[p]));
        assert(keys[p] == rollups::verb_key(rows[p], rollups::opt_views(verbs)[p]));
    }
    assert forall|i: int, j: int| 0 <= i < j < r.len() implies (#[trigger] r[i]).verb@ != (
    #[trigger] r[j]).verb@ by {
        assert(g[i].0 != g[j].0);
    }
    assert forall|i: int| 0 <= i < r.len() implies adds_up((#[trigger] r[i]).calls, rows) by {
        lemma_adds_up(r[i].calls, rows, keys, i);
    }
}

/// Whether the name is that of the tool of an MCP server. The server ends at
/// the first pair of underscores behind the prefix; neither part is empty.
pub open spec fn names_tool(name: Seq<char>, server: Seq<char>, tool: Seq<char>) -> bool {
    let rest = server + seq!['_', '_'] + tool;
    &&& name == seq!['m', 'c', 'p', '_', '_'] + rest
    &&& server.len() > 0
    &&& tool.len() > 0
    &&& forall|k: int| 0 <= k < server.len() ==> !((#[trigger] rest[k]) == '_' && rest[k + 1] == '_')
}

proof fn lemma_first_gap(s: Seq<char>, n: int)
    requires
        0 <= n,
        n + 2 <= s.len(),
        s[n] == '_' && s[n + 1] == '_',
        forall|k: int| 0 <= k < n ==> !((#[trigger] s[k]) == '_' && s[k + 1] == '_'),
    ensures
        rollups::gap_at(s) == n,
    decreases n,
{
    if n > 0 {
        let d = s.drop_first();
        assert(!(s[0] == '_' && s[1] == '_'));
        assert forall|k: int| 0 <= k < n - 1 implies !((#[trigger] d[k]) == '_' && d[k + 1]
            == '_') by {
            assert(!(s[k + 1] == '_' && s[k + 1 + 1] == '_'));
        }
        lemma_first_gap(d, n - 1);
    }
}

proof fn lemma_gap_is_first(s: Seq<char>)
    ensures
        0 <= rollups::gap_at(s) <= s.len(),
        rollups::gap_at(s) < s.len() ==> rollups::gap_at(s) + 2 <= s.len() && s[rollups::gap_at(s)]
            == '_' && s[rollups::gap_at(s) + 1] == '_',
        forall|k: int|
            0 <= k < rollups::gap_at(s) && k + 1 < s.len() ==> !((#[trigger] s[k]) == '_' && s[k
                + 1] == '_'),
    decreases s.len(),
{
    if s.len() >= 2 && !(s[0] == '_' && s[1] == '_') {
        let d = s.drop_first();
        lemma_gap_is_first(d);
        let g = rollups::gap_at(d);
        if g < d.len() {
            assert(d[g] == s[g + 1] && d[g + 1] == s[g + 2]);
        }
        assert forall|k: int| 0 <= k < g + 1 && k + 1 < s.len() implies !((#[trigger] s[k]) == '_'
            && s[k + 1] == '_') by {
            if k > 0 {
                assert(d[k - 1] == s[k] && d[k - 1 + 1] == s[k + 1]);
            }
        }
    }
}

proof fn lemma_mcp_parts(name: Seq<char>)
    ensures
        forall|server: Seq<char>, tool: Seq<char>| #[trigger]
            names_tool(name, server, tool) <==> rollups::mcp_parts(name) == Some((server, tool)),
{
    reveal_strlit("mcp__");
    let head = "mcp__"@;
    assert(head =~= seq!['m', 'c', 'p', '_', '_']);
    let rest = name.skip(5);
    assert forall|server: Seq<char>, tool: Seq<char>| #[trigger]
        names_tool(name, server, tool) <==> rollups::mcp_parts(name) == Some((server, tool)) by {
        let sum = server + seq!['_', '_'] + tool;
        if names_tool(name, server, tool) {
            assert(rest =~= sum);
            assert(name.take(5) =~= head);
            lemma_first_gap(rest, server.len() as int);
            assert(rest.take(server.len() as int) =~= server);
            assert(rest.skip(server.len() as int + 2) =~= tool);
        }
        if rollups::mcp_parts(name) == Some((server, tool)) {
            lemma_gap_is_first(rest);
            let at = rollups::gap_at(rest);
            assert(sum =~= rest);
            assert(name =~= head + rest);
            assert forall|k: int| 0 <= k < server.len() implies !((#[trigger] sum[k]) == '_'
                && sum[k + 1] == '_') by {
                assert(rest[k] == sum[k] && rest[k + 1] == sum[k + 1]);
            }
        }
    }
}

/// What [`rollups::aggregate_by_mcp_server`] makes of the rows.
pub open spec fn by_server(r: Seq<McpServerAggregation>, rows: Seq<ToolRow>) -> bool {
    let g = rollups::row_groups(rows, |row: ToolRow| rollups::server_key(row));
    &&& r.len() == g.len()
    &&& forall|i: int| 0 <= i < r.len() ==> rollups::is_server(#[trigger] r[i], rows, g[i])
}

/// Every call of a tool of an MCP server is listed once, in the roll-up of the
/// server, and no other call is.
pub proof fn lemma_servers(r: Seq<McpServerAggregation>, rows: Seq<ToolRow>)
    requires
        rows.len() <= usize::MAX,
        by_server(r, rows),
    ensures
        forall|p: int, server: Seq<char>, tool: Seq<char>|
            #![trigger names_tool(rows[p].tool_name@, server, tool)]
            0 <= p < rows.len() && names_tool(rows[p].tool_name@, server, tool) ==> exists|i: int|
                0 <= i < r.len() && (#[trigger] r[i]).server@ == server
                    && r[i].calls.rows@.contains(p as usize),
        forall|i: int, p: int|
            #![trigger r[i].calls.rows@.contains(p as usize)]
            0 <= i < r.len() && 0 <= p < rows.len() && r[i].calls.rows@.contains(p as usize)
                ==> exists|tool: Seq<char>| #[trigger]
                names_tool(rows[p].tool_name@, r[i].server@, tool),
        forall|i: int, j: int|
            0 <= i < j < r.len() ==> (#[trigger] r[i]).server@ != (#[trigger] r[j]).server@,
        forall|i: int| 0 <= i < r.len() ==> adds_up((#[trigger] r[i]).calls, rows),
{
    let f = |row: ToolRow| rollups::server_key(row);
    let keys = rollups::keys_of(rows, f);
    let g = rollups::keyed(keys);
    rollups::lemma_keyed(keys);
    assert forall|p: int, server: Seq<char>, tool: Seq<char>|
        #![trigger names_tool(rows[p].tool_name@, server, tool)]
        0 <= p < rows.len() && names_tool(rows[p].tool_name@, server, tool) implies exists|i: int|
        0 <= i < r.len() && (#[trigger] r[i]).server@ == server && r[i].calls.rows@.contains(
            p as usize,
        ) by {
        lemma_mcp_parts(rows[p].tool_name@);
        assert(keys[p] == Some(server));
        let i = lemma_keyed_at(keys, p);
        assert(rollups::is_server(r[i], rows, g[i]));
    }
    assert forall|i: int, p: int|
        #![trigger r[i].calls.rows@.contains(p as usize)]
        0 <= i < r.len() && 0 <= p < rows.len() && r[i].calls.rows@.contains(
            p as usize,
        ) implies exists|tool: Seq<char>| #[trigger]
        names_tool(rows[p].tool_name@, r[i].server@, tool) by {
        assert(rollups::is_server(r[i], rows, g[i]));
        lemma_keyed_in(keys, i, p);
        assert(keys[p] == rollups::server_key(rows[p]));
        lemma_mcp_parts(rows[p].tool_name@);
        let parts = rollups::mcp_parts(rows[p].tool_name@)->Some_0;
        assert(names_tool(rows[p].tool_name@, parts.0, parts.1));
    }
    assert forall|i: int, j: int| 0 <= i < j < r.len() implies (#[trigger] r[i]).server@ != (
    #[trigger] r[j]).server@ by {
        assert(g[i].0 != g[j].0);
    }
    assert forall|i: int| 0 <= i < r.len() implies adds_up((#[trigger] r[i]).calls, rows) by {
        lemma_adds_up(r[i].calls, rows, keys, i);
    }
}

} // verus!
