//! The findings of a session summed up.

use crate::findings::{CompactionLoss, RetryLoop};
use crate::groups;
use crate::patterns;
use crate::patterns::{
    Contribution, EntryView, Finding, PatternKind, SessionFindings, SessionPatternSummary,
};
use vstd::prelude::*;

verus! {

spec fn number(all: Seq<EntryView>, key: Seq<char>, kind: PatternKind) -> nat {
    all.filter(|e: EntryView| e.session == key && e.of.kind == kind).len()
}

spec fn total(all: Seq<EntryView>, key: Seq<char>, kind: PatternKind) -> int {
    all.fold_left(
        0int,
        |n: int, e: EntryView|
            n + if e.session == key && e.of.kind == kind {
                e.weight as int
            } else {
                0
            },
    )
}

proof fn lemma_own_entries(all: Seq<EntryView>, key: Seq<char>, kind: PatternKind)
    requires
        all.len() <= usize::MAX,
    ensures
        ({
            let own = patterns::entries_at(
                all,
                groups::positions(patterns::entry_sessions(all), key),
            );
            &&& own == all.filter(|e: EntryView| e.session == key)
            &&& patterns::kind_count(own, kind) == number(all, key, kind)
            &&& patterns::kind_sum(own, kind) == total(all, key, kind)
        }),
    decreases all.len(),
{
    reveal(Seq::filter);
    let names = patterns::entry_sessions(all);
    let at = groups::positions(names, key);
    let own = patterns::entries_at(all, at);
    if all.len() > 0 {
        let d = all.drop_last();
        lemma_own_entries(d, key, kind);
        assert(names.drop_last() =~= patterns::entry_sessions(d));
        let before = groups::positions(patterns::entry_sessions(d), key);
        groups::lemma_positions(patterns::entry_sessions(d), key);
        assert(patterns::entries_at(all, before) =~= patterns::entries_at(d, before)) by {
            assert forall|i: int| 0 <= i < before.len() implies all[before[i] as int]
                == d[#[trigger] before[i] as int] by {
                assert(before[i] < patterns::entry_sessions(d).len());
            }
        }
        if all.last().session == key {
            assert(own =~= patterns::entries_at(all, before).push(all.last()));
            assert(own.drop_last() =~= patterns::entries_at(d, before));
        } else {
            assert(own == patterns::entries_at(all, before));
        }
    } else {
        assert(own =~= Seq::<EntryView>::empty());
    }
}

proof fn lemma_number_adds(a: Seq<EntryView>, b: Seq<EntryView>, key: Seq<char>, kind: PatternKind)
    ensures
        number(a + b, key, kind) == number(a, key, kind) + number(b, key, kind),
        total(a + b, key, kind) == total(a, key, kind) + total(b, key, kind),
    decreases b.len(),
{
    reveal(Seq::filter);
    if b.len() > 0 {
        lemma_number_adds(a, b.drop_last(), key, kind);
        assert((a + b).drop_last() =~= a + b.drop_last());
        assert((a + b).last() == b.last());
    } else {
        assert(a + b =~= a);
    }
}

/// The findings of the session.
pub open spec fn of_session<F: Finding>(list: Seq<F>, session: Seq<char>) -> Seq<F> {
    list.filter(|x: F| x.session() == session)
}

proof fn lemma_number_of<F: Finding>(
    list: Seq<F>,
    key: Seq<char>,
    own: PatternKind,
    kind: PatternKind,
)
    ensures
        own == kind ==> number(patterns::entries_of(list, own), key, kind) == of_session(
            list,
            key,
        ).len(),
        own != kind ==> number(patterns::entries_of(list, own), key, kind) == 0,
        own == kind ==> total(patterns::entries_of(list, own), key, kind) == list.fold_left(
            0int,
            |n: int, x: F|
                n + if x.session() == key {
                    x.weight() as int
                } else {
                    0
                },
        ),
        own != kind ==> total(patterns::entries_of(list, own), key, kind) == 0,
    decreases list.len(),
{
    reveal(Seq::filter);
    let e = patterns::entries_of(list, own);
    if list.len() > 0 {
        lemma_number_of(list.drop_last(), key, own, kind);
        assert(e.drop_last() =~= patterns::entries_of(list.drop_last(), own));
    }
}

proof fn lemma_number_all(
    f: SessionFindings,
    c: Seq<CompactionLoss>,
    key: Seq<char>,
    kind: PatternKind,
)
    ensures
        ({
            let all = patterns::all_entries(f, c);
            &&& number(all, key, kind) == match kind {
                PatternKind::RetryLoop => of_session(f.retry_loops@, key).len(),
                PatternKind::FailureRun => of_session(f.failure_runs@, key).len(),
                PatternKind::CancellationRun => of_session(f.cancelled_runs@, key).len(),
                PatternKind::Compaction => of_session(c, key).len(),
                PatternKind::EditRevert => of_session(f.edit_reverts@, key).len(),
                PatternKind::SkillRecallDup => of_session(f.skill_recall_dups@, key).len(),
                PatternKind::SkillPruningProtection => of_session(
                    f.skill_pruning_protection@,
                    key,
                ).len(),
                PatternKind::SystemPromptTax => of_session(f.system_prompt_taxes@, key).len(),
                PatternKind::EditHeavy => of_session(f.edit_heavy_sessions@, key).len(),
            }
            &&& kind == PatternKind::RetryLoop ==> total(all, key, kind) == retries(
                f.retry_loops@,
                key,
            )
        }),
{
    let e1 = patterns::entries_of(f.retry_loops@, PatternKind::RetryLoop);
    let e2 = patterns::entries_of(f.failure_runs@, PatternKind::FailureRun);
    let e3 = patterns::entries_of(f.cancelled_runs@, PatternKind::CancellationRun);
    let e4 = patterns::entries_of(c, PatternKind::Compaction);
    let e5 = patterns::entries_of(f.edit_reverts@, PatternKind::EditRevert);
    let e6 = patterns::entries_of(f.skill_recall_dups@, PatternKind::SkillRecallDup);
    let e7 = patterns::entries_of(
        f.skill_pruning_protection@,
        PatternKind::SkillPruningProtection,
    );
    let e8 = patterns::entries_of(f.system_prompt_taxes@, PatternKind::SystemPromptTax);
    let e9 = patterns::entries_of(f.edit_heavy_sessions@, PatternKind::EditHeavy);
    lemma_number_adds(e1, e2, key, kind);
    lemma_number_adds(e1 + e2, e3, key, kind);
    lemma_number_adds(e1 + e2 + e3, e4, key, kind);
    lemma_number_adds(e1 + e2 + e3 + e4, e5, key, kind);
    lemma_number_adds(e1 + e2 + e3 + e4 + e5, e6, key, kind);
    lemma_number_adds(e1 + e2 + e3 + e4 + e5 + e6, e7, key, kind);
    lemma_number_adds(e1 + e2 + e3 + e4 + e5 + e6 + e7, e8, key, kind);
    lemma_number_adds(e1 + e2 + e3 + e4 + e5 + e6 + e7 + e8, e9, key, kind);
    lemma_number_of(f.retry_loops@, key, PatternKind::RetryLoop, kind);
    lemma_number_of(f.failure_runs@, key, PatternKind::FailureRun, kind);
    lemma_number_of(f.cancelled_runs@, key, PatternKind::CancellationRun, kind);
    lemma_number_of(c, key, PatternKind::Compaction, kind);
    lemma_number_of(f.edit_reverts@, key, PatternKind::EditRevert, kind);
    lemma_number_of(f.skill_recall_dups@, key, PatternKind::SkillRecallDup, kind);
    lemma_number_of(
        f.skill_pruning_protection@,
        key,
        PatternKind::SkillPruningProtection,
        kind,
    );
    lemma_number_of(f.system_prompt_taxes@, key, PatternKind::SystemPromptTax, kind);
    lemma_number_of(f.edit_heavy_sessions@, key, PatternKind::EditHeavy, kind);
    lemma_retries(f.retry_loops@, key);
}

/// The attempts of the retry loops of the session.
pub open spec fn retries(loops: Seq<RetryLoop>, session: Seq<char>) -> int {
    loops.fold_left(
        0int,
        |n: int, x: RetryLoop|
            n + if x.session_id@ == session {
                x.attempts as int
            } else {
                0
            },
    )
}

proof fn lemma_retries(loops: Seq<RetryLoop>, key: Seq<char>)
    ensures
        retries(loops, key) == loops.fold_left(
            0int,
            |n: int, x: RetryLoop|
                n + if x.session() == key {
                    x.weight() as int
                } else {
                    0
                },
        ),
    decreases loops.len(),
{
    if loops.len() > 0 {
        lemma_retries(loops.drop_last(), key);
    }
}

proof fn lemma_longest(e: Seq<EntryView>)
    ensures
        forall|i: int|
            0 <= i < e.len() && (#[trigger] e[i]).of.kind == PatternKind::FailureRun ==> e[i].weight
                <= patterns::kind_max(e, PatternKind::FailureRun),
        patterns::kind_max(e, PatternKind::FailureRun) > 0 ==> exists|i: int|
            0 <= i < e.len() && (#[trigger] e[i]).of.kind == PatternKind::FailureRun && e[i].weight
                == patterns::kind_max(e, PatternKind::FailureRun),
    decreases e.len(),
{
    if e.len() > 0 {
        let d = e.drop_last();
        lemma_longest(d);
        let most = patterns::kind_max(e, PatternKind::FailureRun);
        assert forall|i: int|
            0 <= i < e.len() && (#[trigger] e[i]).of.kind == PatternKind::FailureRun implies e[i].weight
            <= most by {
            if i < d.len() {
                assert(d[i] == e[i]);
            }
        }
        if most > 0 {
            if e.last().of.kind == PatternKind::FailureRun && e.last().weight == most {
                assert(e[e.len() - 1] == e.last());
            } else {
                let i = choose|i: int|
                    0 <= i < d.len() && (#[trigger] d[i]).of.kind == PatternKind::FailureRun
                        && d[i].weight == most;
                assert(e[i] == d[i]);
            }
        }
    }
}

/// A summary counts what was found in its session, each kind by itself: how
/// many findings of the kind name the session. The attempts of its retry loops
/// are added up.
pub proof fn lemma_summary_counts(
    r: Seq<SessionPatternSummary>,
    f: SessionFindings,
    c: Seq<CompactionLoss>,
    i: int,
)
    requires
        patterns::summarizes(r, patterns::all_entries(f, c)),
        patterns::all_entries(f, c).len() <= usize::MAX,
        0 <= i < r.len(),
    ensures
        ({
            let s = r[i].session_id@;
            &&& r[i].retry_loop_count == of_session(f.retry_loops@, s).len()
            &&& r[i].failure_run_count == of_session(f.failure_runs@, s).len()
            &&& r[i].cancellation_run_count == of_session(f.cancelled_runs@, s).len()
            &&& r[i].compaction_count == of_session(c, s).len()
            &&& r[i].edit_revert_count == of_session(f.edit_reverts@, s).len()
            &&& r[i].skill_recall_dup_count == of_session(f.skill_recall_dups@, s).len()
            &&& r[i].skill_pruning_protection_count == of_session(
                f.skill_pruning_protection@,
                s,
            ).len()
            &&& r[i].system_prompt_tax_count == of_session(f.system_prompt_taxes@, s).len()
            &&& r[i].edit_heavy_count == of_session(f.edit_heavy_sessions@, s).len()
            &&& r[i].total_retries == retries(f.retry_loops@, s)
        }),
{
    let all = patterns::all_entries(f, c);
    let g = groups::groups_of(patterns::entry_sessions(all));
    let key = g[i].0;
    assert(patterns::sums_up(r[i], key, patterns::entries_at(all, g[i].1)));
    assert(g[i].1 == groups::positions(patterns::entry_sessions(all), key));
    lemma_own_entries(all, key, PatternKind::RetryLoop);
    lemma_own_entries(all, key, PatternKind::FailureRun);
    lemma_own_entries(all, key, PatternKind::CancellationRun);
    lemma_own_entries(all, key, PatternKind::Compaction);
    lemma_own_entries(all, key, PatternKind::EditRevert);
    lemma_own_entries(all, key, PatternKind::SkillRecallDup);
    lemma_own_entries(all, key, PatternKind::SkillPruningProtection);
    lemma_own_entries(all, key, PatternKind::SystemPromptTax);
    lemma_own_entries(all, key, PatternKind::EditHeavy);
    lemma_number_all(f, c, key, PatternKind::RetryLoop);
    lemma_number_all(f, c, key, PatternKind::FailureRun);
    lemma_number_all(f, c, key, PatternKind::CancellationRun);
    lemma_number_all(f, c, key, PatternKind::Compaction);
    lemma_number_all(f, c, key, PatternKind::EditRevert);
    lemma_number_all(f, c, key, PatternKind::SkillRecallDup);
    lemma_number_all(f, c, key, PatternKind::SkillPruningProtection);
    lemma_number_all(f, c, key, PatternKind::SystemPromptTax);
    lemma_number_all(f, c, key, PatternKind::EditHeavy);
}

/// The longest failure run of the session is what a summary gives, 0 where
/// there is none.
pub proof fn lemma_summary_longest(
    r: Seq<SessionPatternSummary>,
    f: SessionFindings,
    c: Seq<CompactionLoss>,
    i: int,
)
    requires
        patterns::summarizes(r, patterns::all_entries(f, c)),
        patterns::all_entries(f, c).len() <= usize::MAX,
        0 <= i < r.len(),
    ensures
        forall|k: int|
            0 <= k < f.failure_runs@.len() && (#[trigger] f.failure_runs@[k]).session_id@
                == r[i].session_id@ ==> f.failure_runs@[k].length <= r[i].consecutive_failure_max,
        r[i].consecutive_failure_max > 0 ==> exists|k: int|
            0 <= k < f.failure_runs@.len() && (#[trigger] f.failure_runs@[k]).session_id@
                == r[i].session_id@ && f.failure_runs@[k].length == r[i].consecutive_failure_max,
{
    let all = patterns::all_entries(f, c);
    let g = groups::groups_of(patterns::entry_sessions(all));
    let key = g[i].0;
    assert(patterns::sums_up(r[i], key, patterns::entries_at(all, g[i].1)));
    assert(g[i].1 == groups::positions(patterns::entry_sessions(all), key));
    lemma_own_entries(all, key, PatternKind::FailureRun);
    let p = |e: EntryView| e.session == key;
    let own = all.filter(p);
    lemma_longest(own);
    broadcast use vstd::seq_lib::group_filter_ensures;
    let runs = f.failure_runs@;
    let n = f.retry_loops@.len() as int;
    assert forall|k: int|
        0 <= k < runs.len() && (#[trigger] runs[k]).session_id@ == key implies runs[k].length
        <= r[i].consecutive_failure_max by {
        assert(all[n + k].of.kind == PatternKind::FailureRun);
        assert(all[n + k].weight == runs[k].length);
        assert(p(all[n + k]));
        assert(own.contains(all[n + k]));
        let q = choose|q: int| 0 <= q < own.len() && own[q] == all[n + k];
        assert(own[q].weight <= r[i].consecutive_failure_max);
    }
    if r[i].consecutive_failure_max > 0 {
        let q = choose|q: int|
            0 <= q < own.len() && (#[trigger] own[q]).of.kind == PatternKind::FailureRun
                && own[q].weight == r[i].consecutive_failure_max;
        assert(p(own[q]));
        lemma_filtered_from(all, p, q);
        let m = choose|m: int| 0 <= m < all.len() && all[m] == own[q];
        lemma_runs_at(f, c, m);
        assert(runs[m - n].session_id@ == key);
    }
}

/// What a filter keeps was there.
pub proof fn lemma_filtered_from<T>(s: Seq<T>, p: spec_fn(T) -> bool, i: int)
    requires
        0 <= i < s.filter(p).len(),
    ensures
        s.contains(s.filter(p)[i]),
    decreases s.len(),
{
    reveal(Seq::filter);
    if s.len() > 0 {
        let d = s.drop_last();
        if i < d.filter(p).len() {
            lemma_filtered_from(d, p, i);
            let k = choose|k: int| 0 <= k < d.len() && d[k] == d.filter(p)[i];
            assert(s[k] == d[k]);
        } else {
            assert(s[s.len() - 1] == s.last());
        }
    }
}

proof fn lemma_runs_at(f: SessionFindings, c: Seq<CompactionLoss>, m: int)
    requires
        0 <= m < patterns::all_entries(f, c).len(),
        patterns::all_entries(f, c)[m].of.kind == PatternKind::FailureRun,
    ensures
        0 <= m - f.retry_loops@.len() < f.failure_runs@.len(),
        patterns::all_entries(f, c)[m].session == f.failure_runs@[m
            - f.retry_loops@.len()].session_id@,
        patterns::all_entries(f, c)[m].weight == f.failure_runs@[m
            - f.retry_loops@.len()].length,
{
}

/// Every session in which something was found has a summary, and no session has
/// two.
pub proof fn lemma_summaries_cover(
    r: Seq<SessionPatternSummary>,
    f: SessionFindings,
    c: Seq<CompactionLoss>,
)
    requires
        patterns::summarizes(r, patterns::all_entries(f, c)),
    ensures
        forall|i: int, j: int|
            0 <= i < j < r.len() ==> (#[trigger] r[i]).session_id@ != (#[trigger] r[j]).session_id@,
        forall|k: int|
            0 <= k < patterns::all_entries(f, c).len() ==> exists|i: int|
                0 <= i < r.len() && (#[trigger] r[i]).session_id@ == (
                #[trigger] patterns::all_entries(f, c)[k]).session,
{
    let all = patterns::all_entries(f, c);
    let names = patterns::entry_sessions(all);
    let seen = groups::first_seen(names);
    let g = groups::groups_of(names);
    groups::lemma_first_seen(names);
    assert forall|i: int| 0 <= i < r.len() implies (#[trigger] r[i]).session_id@ == seen[i] by {
        assert(patterns::sums_up(r[i], g[i].0, patterns::entries_at(all, g[i].1)));
    }
    assert forall|k: int| 0 <= k < all.len() implies exists|i: int|
        0 <= i < r.len() && (#[trigger] r[i]).session_id@ == (#[trigger] all[k]).session by {
        assert(names[k] == all[k].session);
        assert(names.contains(all[k].session));
        assert(seen.contains(all[k].session));
        let i = choose|i: int| 0 <= i < seen.len() && seen[i] == all[k].session;
        assert(r[i].session_id@ == seen[i]);
    }
}

/// The costs of a session are those of all its findings but one kind: what an
/// edit-heavy session costs is left out.
pub proof fn lemma_summary_prices(
    r: Seq<SessionPatternSummary>,
    f: SessionFindings,
    c: Seq<CompactionLoss>,
    i: int,
)
    requires
        patterns::summarizes(r, patterns::all_entries(f, c)),
        patterns::all_entries(f, c).len() <= usize::MAX,
        0 <= i < r.len(),
    ensures
        r[i].priced@ == patterns::all_entries(f, c).filter(
            |e: EntryView| e.session == r[i].session_id@,
        ).filter(|e: EntryView| e.of.kind != PatternKind::EditHeavy).map_values(
            |e: EntryView| e.of,
        ),
{
    let all = patterns::all_entries(f, c);
    let g = groups::groups_of(patterns::entry_sessions(all));
    let key = g[i].0;
    assert(patterns::sums_up(r[i], key, patterns::entries_at(all, g[i].1)));
    assert(g[i].1 == groups::positions(patterns::entry_sessions(all), key));
    lemma_own_entries(all, key, PatternKind::FailureRun);
    lemma_priced(all.filter(|e: EntryView| e.session == key));
}

proof fn lemma_priced(e: Seq<EntryView>)
    ensures
        patterns::priced_of(e) == e.filter(
            |e: EntryView| e.of.kind != PatternKind::EditHeavy,
        ).map_values(|e: EntryView| e.of),
    decreases e.len(),
{
    reveal(Seq::filter);
    let p = |e: EntryView| e.of.kind != PatternKind::EditHeavy;
    let f = |e: EntryView| e.of;
    if e.len() > 0 {
        let d = e.drop_last();
        lemma_priced(d);
        if p(e.last()) {
            assert(e.filter(p) == d.filter(p).push(e.last()));
            assert(e.filter(p).map_values(f) =~= d.filter(p).map_values(f).push(e.last().of));
        }
    } else {
        assert(e.filter(p).map_values(f) =~= Seq::<Contribution>::empty());
    }
}

} // verus!
