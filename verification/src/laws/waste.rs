//! The findings in words.

use crate::order;
use crate::patterns::PatternsResult;
use crate::records::SourceNames;
use crate::waste;
use crate::waste::{Amount, FindingView, PatternAmounts, WasteSeverity};
use vstd::prelude::*;

verus! {

/// Whether the finding is of the kind and the session, and weighs as much as
/// the amount.
pub open spec fn is_about(
    f: FindingView,
    kind: Seq<char>,
    session: Seq<char>,
    a: Amount,
) -> bool {
    f.kind == kind && f.session_id == session && f.severity == a.severity && f.cost_key == a.key
}

/// What [`waste::findings_from_patterns`] gives.
pub open spec fn findings_of(
    r: PatternsResult,
    m: PatternAmounts,
    names: SourceNames,
) -> Seq<FindingView> {
    order::stable_sort(waste::all_findings(r, m, names), waste::finding_order())
}

proof fn lemma_kept(r: PatternsResult, m: PatternAmounts, names: SourceNames, k: int) -> (p: int)
    requires
        0 <= k < waste::all_findings(r, m, names).len(),
    ensures
        0 <= p < findings_of(r, m, names).len(),
        findings_of(r, m, names)[p] == waste::all_findings(r, m, names)[k],
{
    let all = waste::all_findings(r, m, names);
    let s = findings_of(r, m, names);
    order::lemma_sort_multiset(all, waste::finding_order());
    all.to_multiset_ensures();
    s.to_multiset_ensures();
    assert(all.contains(all[k]));
    assert(all.to_multiset().count(all[k]) > 0);
    assert(s.contains(all[k]));
    choose|p: int| 0 <= p < s.len() && s[p] == all[k]
}

/// There is one finding in words for each pattern that was found.
pub proof fn lemma_as_many_findings(r: PatternsResult, m: PatternAmounts, names: SourceNames)
    ensures
        findings_of(r, m, names).len() == r.retry_loops@.len() + r.failure_runs@.len()
            + r.cancelled_runs@.len() + r.compactions@.len() + r.edit_reverts@.len()
            + r.edit_heavy_sessions@.len() + r.skill_recall_dups@.len()
            + r.skill_pruning_protection@.len() + r.system_prompt_taxes@.len(),
{
    order::lemma_sort_multiset(waste::all_findings(r, m, names), waste::finding_order());
}

/// Every retry loop is put in words under its session and its amount.
pub proof fn lemma_retry_loop_worded(
    r: PatternsResult,
    m: PatternAmounts,
    names: SourceNames,
    i: int,
) -> (p: int)
    requires
        m.covers(r),
        0 <= i < r.retry_loops@.len(),
    ensures
        0 <= p < findings_of(r, m, names).len(),
        is_about(
            findings_of(r, m, names)[p],
            "retry-loop"@,
            r.retry_loops@[i].session_id@,
            m.retry_loops@[i],
        ),
        findings_of(r, m, names)[p].event_source == r.retry_loops@[i].event_source,
        findings_of(r, m, names)[p].tokens_per_session is None,
{
    lemma_kept(r, m, names, i)
}

/// Every failure run is put in words under its session and its amount.
pub proof fn lemma_failure_run_worded(
    r: PatternsResult,
    m: PatternAmounts,
    names: SourceNames,
    i: int,
) -> (p: int)
    requires
        m.covers(r),
        0 <= i < r.failure_runs@.len(),
    ensures
        0 <= p < findings_of(r, m, names).len(),
        is_about(
            findings_of(r, m, names)[p],
            "failure-run"@,
            r.failure_runs@[i].session_id@,
            m.failure_runs@[i],
        ),
        findings_of(r, m, names)[p].event_source == r.failure_runs@[i].event_source,
{
    lemma_kept(r, m, names, r.retry_loops@.len() + i)
}

/// Every cancellation run is put in words under its session and its amount.
pub proof fn lemma_cancellation_run_worded(
    r: PatternsResult,
    m: PatternAmounts,
    names: SourceNames,
    i: int,
) -> (p: int)
    requires
        m.covers(r),
        0 <= i < r.cancelled_runs@.len(),
    ensures
        0 <= p < findings_of(r, m, names).len(),
        is_about(
            findings_of(r, m, names)[p],
            "cancellation-run"@,
            r.cancelled_runs@[i].session_id@,
            m.cancelled_runs@[i],
        ),
        findings_of(r, m, names)[p].event_source == Some(r.cancelled_runs@[i].event_source),
{
    lemma_kept(r, m, names, r.retry_loops@.len() + r.failure_runs@.len() + i)
}

/// Every compaction is put in words under its session and its amount, with the
/// tokens that it dropped where it dropped any.
pub proof fn lemma_compaction_worded(
    r: PatternsResult,
    m: PatternAmounts,
    names: SourceNames,
    i: int,
) -> (p: int)
    requires
        m.covers(r),
        0 <= i < r.compactions@.len(),
    ensures
        0 <= p < findings_of(r, m, names).len(),
        is_about(
            findings_of(r, m, names)[p],
            "compaction-loss"@,
            r.compactions@[i].session_id@,
            m.compactions@[i],
        ),
        r.compactions@[i].tokens_before_compact > 0 ==> findings_of(
            r,
            m,
            names,
        )[p].tokens_per_session == Some(r.compactions@[i].tokens_before_compact),
        r.compactions@[i].tokens_before_compact == 0 ==> findings_of(
            r,
            m,
            names,
        )[p].tokens_per_session is None,
{
    lemma_kept(
        r,
        m,
        names,
        r.retry_loops@.len() + r.failure_runs@.len() + r.cancelled_runs@.len() + i,
    )
}

/// Every edit that was taken back is put in words under its session and its
/// amount.
pub proof fn lemma_edit_revert_worded(
    r: PatternsResult,
    m: PatternAmounts,
    names: SourceNames,
    i: int,
) -> (p: int)
    requires
        m.covers(r),
        0 <= i < r.edit_reverts@.len(),
    ensures
        0 <= p < findings_of(r, m, names).len(),
        is_about(
            findings_of(r, m, names)[p],
            "edit-revert"@,
            r.edit_reverts@[i].session_id@,
            m.edit_reverts@[i],
        ),
{
    lemma_kept(
        r,
        m,
        names,
        r.retry_loops@.len() + r.failure_runs@.len() + r.cancelled_runs@.len()
            + r.compactions@.len() + i,
    )
}

/// Every edit-heavy session is put in words under its amount, but never as
/// anything worse than a warning.
pub proof fn lemma_edit_heavy_worded(
    r: PatternsResult,
    m: PatternAmounts,
    names: SourceNames,
    i: int,
) -> (p: int)
    requires
        m.covers(r),
        0 <= i < r.edit_heavy_sessions@.len(),
    ensures
        0 <= p < findings_of(r, m, names).len(),
        ({
            let f = findings_of(r, m, names)[p];
            let a = m.edit_heavy_sessions@[i];
            &&& f.kind == "edit-heavy"@
            &&& f.session_id == r.edit_heavy_sessions@[i].session_id@
            &&& f.cost_key == a.key
            &&& f.severity != WasteSeverity::High
            &&& a.severity != WasteSeverity::High ==> f.severity == a.severity
            &&& a.severity == WasteSeverity::High ==> f.severity == WasteSeverity::Warn
        }),
{
    lemma_kept(
        r,
        m,
        names,
        r.retry_loops@.len() + r.failure_runs@.len() + r.cancelled_runs@.len()
            + r.compactions@.len() + r.edit_reverts@.len() + i,
    )
}

/// Every skill that was loaded again is put in words under its session and its
/// amount.
pub proof fn lemma_recall_dup_worded(
    r: PatternsResult,
    m: PatternAmounts,
    names: SourceNames,
    i: int,
) -> (p: int)
    requires
        m.covers(r),
        0 <= i < r.skill_recall_dups@.len(),
    ensures
        0 <= p < findings_of(r, m, names).len(),
        is_about(
            findings_of(r, m, names)[p],
            "skill-recall-dup"@,
            r.skill_recall_dups@[i].session_id@,
            m.skill_recall_dups@[i],
        ),
{
    lemma_kept(
        r,
        m,
        names,
        r.retry_loops@.len() + r.failure_runs@.len() + r.cancelled_runs@.len()
            + r.compactions@.len() + r.edit_reverts@.len() + r.edit_heavy_sessions@.len() + i,
    )
}

/// Every skill that was carried along is put in words under its session and its
/// amount.
pub proof fn lemma_protection_worded(
    r: PatternsResult,
    m: PatternAmounts,
    names: SourceNames,
    i: int,
) -> (p: int)
    requires
        m.covers(r),
        0 <= i < r.skill_pruning_protection@.len(),
    ensures
        0 <= p < findings_of(r, m, names).len(),
        is_about(
            findings_of(r, m, names)[p],
            "skill-pruning-protection"@,
            r.skill_pruning_protection@[i].session_id@,
            m.skill_pruning_protection@[i],
        ),
{
    lemma_kept(
        r,
        m,
        names,
        r.retry_loops@.len() + r.failure_runs@.len() + r.cancelled_runs@.len()
            + r.compactions@.len() + r.edit_reverts@.len() + r.edit_heavy_sessions@.len()
            + r.skill_recall_dups@.len() + i,
    )
}

/// Every system prompt that was paid for is put in words under its session and
/// its amount. It costs its tokens once for each turn that it rode along in.
pub proof fn lemma_prompt_tax_worded(
    r: PatternsResult,
    m: PatternAmounts,
    names: SourceNames,
    i: int,
) -> (p: int)
    requires
        m.covers(r),
        0 <= i < r.system_prompt_taxes@.len(),
    ensures
        0 <= p < findings_of(r, m, names).len(),
        is_about(
            findings_of(r, m, names)[p],
            "system-prompt-tax"@,
            r.system_prompt_taxes@[i].session_id@,
            m.system_prompt_taxes@[i],
        ),
        ({
            let t = r.system_prompt_taxes@[i];
            let n = t.estimated_system_prompt_tokens * t.riding_turns;
            findings_of(r, m, names)[p].tokens_per_session == Some(
                if n <= u64::MAX {
                    n as u64
                } else {
                    u64::MAX
                },
            )
        }),
{
    lemma_kept(
        r,
        m,
        names,
        r.retry_loops@.len() + r.failure_runs@.len() + r.cancelled_runs@.len()
            + r.compactions@.len() + r.edit_reverts@.len() + r.edit_heavy_sessions@.len()
            + r.skill_recall_dups@.len() + r.skill_pruning_protection@.len() + i,
    )
}

/// The findings stand in the order of their severity, and those of one severity
/// with the dearest first.
pub proof fn lemma_worst_first(
    r: PatternsResult,
    m: PatternAmounts,
    names: SourceNames,
    i: int,
    j: int,
)
    requires
        0 <= i < j < findings_of(r, m, names).len(),
    ensures
        ({
            let a = findings_of(r, m, names)[i];
            let b = findings_of(r, m, names)[j];
            &&& b.severity == WasteSeverity::High ==> a.severity == WasteSeverity::High
            &&& b.severity == WasteSeverity::Warn ==> a.severity != WasteSeverity::Info
            &&& a.severity == b.severity ==> a.cost_key >= b.cost_key
        }),
{
    let lt = waste::finding_order();
    let all = waste::all_findings(r, m, names);
    assert(order::strict_weak(lt));
    order::lemma_sort_in_order(all, lt);
    order::lemma_sort_multiset(all, lt);
    assert(!lt(findings_of(r, m, names)[j], findings_of(r, m, names)[i]));
}

} // verus!
