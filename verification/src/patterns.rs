//! All detectors over all sessions, and a summary for each session.

use crate::attempts;
use crate::compaction;
use crate::edits;
use crate::findings::{
    CancellationRun, CompactionLoss, EditHeavySession, EditRevertCycle, FailureRun, RetryLoop,
    SkillPruningProtection, SkillRecallDup, SystemPromptTax,
};
use crate::groups;
use crate::hotspots;
use crate::hotspots::BySession;
use crate::order;
use crate::records::{
    CompactionEvent, ContentRecord, ToolResultEventRecord, TurnRecord, UserTurnRecord,
};
use crate::sessions;
use crate::skills;
use crate::streaks;
use crate::streaks::{AttemptView, StreakKind};
use crate::text;
use vstd::prelude::*;

verus! {

/// What the detectors can draw on besides the turns.
pub struct DetectPatternsOptions<'a> {
    pub compactions: &'a [CompactionEvent],
    pub user_turns_by_session: &'a [BySession<UserTurnRecord>],
    pub content_by_session: &'a [BySession<ContentRecord>],
    pub tool_result_events: &'a [ToolResultEventRecord],
}

/// Whether `found` has one entry for each of `items`, in order.
pub open spec fn matched<A, B>(
    found: Seq<A>,
    items: Seq<B>,
    stands_for: spec_fn(A, B) -> bool,
) -> bool {
    &&& found.len() == items.len()
    &&& forall|i: int| 0 <= i < found.len() ==> stands_for(#[trigger] found[i], items[i])
}

proof fn lemma_matched_append<A, B>(
    a: Seq<A>,
    b: Seq<A>,
    x: Seq<B>,
    y: Seq<B>,
    stands_for: spec_fn(A, B) -> bool,
)
    requires
        matched(a, x, stands_for),
        matched(b, y, stands_for),
    ensures
        matched(a + b, x + y, stands_for),
{
    assert forall|i: int| 0 <= i < (a + b).len() implies stands_for(
        #[trigger] (a + b)[i],
        (x + y)[i],
    ) by {
        if i < a.len() {
            assert(stands_for(a[i], x[i]));
        } else {
            assert(stands_for(b[i - a.len()], y[i - a.len()]));
        }
    }
}

/// The session of each report.
pub open spec fn report_sessions(events: Seq<ToolResultEventRecord>) -> Seq<Seq<char>> {
    events.map_values(|e: ToolResultEventRecord| e.session_id@)
}

/// The reports on the calls of a session.
pub open spec fn reports_of(events: Seq<ToolResultEventRecord>, id: Seq<char>) -> Seq<usize> {
    groups::positions(report_sessions(events), id)
}

/// Whether the outcomes of the session's calls come from reports.
pub open spec fn is_reported(events: Seq<ToolResultEventRecord>, id: Seq<char>) -> bool {
    reports_of(events, id).len() > 0
}

/// The attempts of a session: what was reported on its calls, or else what the
/// turns themselves say.
pub open spec fn attempts_of(
    turns: Seq<TurnRecord>,
    events: Seq<ToolResultEventRecord>,
    s: (Seq<char>, Seq<usize>),
) -> Seq<AttemptView> {
    if is_reported(events, s.0) {
        attempts::event_attempts(turns, s.1, events, reports_of(events, s.0))
    } else {
        attempts::call_attempts(turns, s.1)
    }
}

/// A session with one thing that was found in it.
#[verifier::ext_equal]
pub struct In<T> {
    pub session: Seq<char>,
    pub members: Seq<usize>,
    pub item: T,
}

/// The things found in a session.
pub open spec fn within<T>(s: (Seq<char>, Seq<usize>), items: Seq<T>) -> Seq<In<T>> {
    items.map_values(|x: T| In { session: s.0, members: s.1, item: x })
}

/// The streaks of a session as lists of attempts.
pub open spec fn taken(a: Seq<AttemptView>, streaks: Seq<(int, int)>) -> Seq<Seq<AttemptView>> {
    streaks.map_values(|s: (int, int)| streaks::members_of(a, s))
}

/// The retry loops of a session.
pub open spec fn retries_in(
    turns: Seq<TurnRecord>,
    events: Seq<ToolResultEventRecord>,
    s: (Seq<char>, Seq<usize>),
) -> Seq<In<Seq<AttemptView>>> {
    let a = attempts_of(turns, events, s);
    within(s, taken(a, streaks::retry_streaks(a)))
}

/// The failure runs of a session.
pub open spec fn failures_in(
    turns: Seq<TurnRecord>,
    events: Seq<ToolResultEventRecord>,
    s: (Seq<char>, Seq<usize>),
) -> Seq<In<Seq<AttemptView>>> {
    let a = attempts_of(turns, events, s);
    within(s, taken(a, streaks::failure_streaks(a, is_reported(events, s.0))))
}

/// The cancellation runs of a session. Only reports tell of cancellations.
pub open spec fn cancellations_in(
    turns: Seq<TurnRecord>,
    events: Seq<ToolResultEventRecord>,
    s: (Seq<char>, Seq<usize>),
) -> Seq<In<Seq<AttemptView>>> {
    if is_reported(events, s.0) {
        let a = attempts_of(turns, events, s);
        within(s, taken(a, streaks::streaks(StreakKind::Cancelled, a)))
    } else {
        Seq::empty()
    }
}

/// The reverted edits of a session.
pub open spec fn reverts_in(turns: Seq<TurnRecord>, s: (Seq<char>, Seq<usize>)) -> Seq<
    In<(int, int)>,
> {
    within(s, edits::reverts_of(turns, sessions::calls_of(turns, s.1)))
}

/// The skills that a session loads more than once.
pub open spec fn dups_in(turns: Seq<TurnRecord>, s: (Seq<char>, Seq<usize>)) -> Seq<
    In<(Seq<char>, Seq<usize>)>,
> {
    within(s, skills::recalled(turns, s.1))
}

/// The skills that a session carries along.
pub open spec fn protections_in(turns: Seq<TurnRecord>, s: (Seq<char>, Seq<usize>)) -> Seq<
    In<(int, int)>,
> {
    within(s, skills::protected(turns, s.1))
}

/// The session itself, if it pays for a system prompt.
pub open spec fn taxes_in(
    turns: Seq<TurnRecord>,
    users: Seq<BySession<UserTurnRecord>>,
    s: (Seq<char>, Seq<usize>),
) -> Seq<In<()>> {
    if skills::is_taxed(turns, s.1, hotspots::records_of(users, s.0)) {
        within(s, seq![()])
    } else {
        Seq::empty()
    }
}

/// The session itself, if it edits far more than it reads.
pub open spec fn heavy_in(turns: Seq<TurnRecord>, s: (Seq<char>, Seq<usize>)) -> Seq<In<()>> {
    if edits::is_edit_heavy(turns, s.1) {
        within(s, seq![()])
    } else {
        Seq::empty()
    }
}

/// When a finding is a retry loop.
pub open spec fn retry_rule(
    turns: Seq<TurnRecord>,
    content: Seq<BySession<ContentRecord>>,
    events: Seq<ToolResultEventRecord>,
) -> spec_fn(RetryLoop, In<Seq<AttemptView>>) -> bool {
    |r: RetryLoop, x: In<Seq<AttemptView>>|
        streaks::is_retry_loop(
            r,
            x.session,
            turns,
            x.item,
            hotspots::records_of(content, x.session),
            is_reported(events, x.session),
        )
}

/// When a finding is a failure run.
pub open spec fn failure_rule(
    turns: Seq<TurnRecord>,
    content: Seq<BySession<ContentRecord>>,
    events: Seq<ToolResultEventRecord>,
) -> spec_fn(FailureRun, In<Seq<AttemptView>>) -> bool {
    |r: FailureRun, x: In<Seq<AttemptView>>|
        streaks::is_failure_run(
            r,
            x.session,
            turns,
            x.item,
            hotspots::records_of(content, x.session),
            is_reported(events, x.session),
        )
}

/// When a finding is a cancellation run.
pub open spec fn cancellation_rule(turns: Seq<TurnRecord>) -> spec_fn(
    CancellationRun,
    In<Seq<AttemptView>>,
) -> bool {
    |r: CancellationRun, x: In<Seq<AttemptView>>|
        streaks::is_cancellation_run(r, x.session, turns, x.item)
}

/// When a finding is a reverted edit.
pub open spec fn revert_rule(
    turns: Seq<TurnRecord>,
    content: Seq<BySession<ContentRecord>>,
) -> spec_fn(EditRevertCycle, In<(int, int)>) -> bool {
    |r: EditRevertCycle, x: In<(int, int)>|
        edits::is_cycle(
            r,
            x.session,
            turns,
            sessions::calls_of(turns, x.members),
            x.item,
            hotspots::records_of(content, x.session),
        )
}

/// When a finding is a skill that was loaded again.
pub open spec fn dup_rule(turns: Seq<TurnRecord>) -> spec_fn(
    SkillRecallDup,
    In<(Seq<char>, Seq<usize>)>,
) -> bool {
    |r: SkillRecallDup, x: In<(Seq<char>, Seq<usize>)>|
        skills::is_dup(r, x.session, turns, skills::skill_calls(turns, x.members), x.item)
}

/// When a finding is a skill that was carried along.
pub open spec fn protection_rule(turns: Seq<TurnRecord>) -> spec_fn(
    SkillPruningProtection,
    In<(int, int)>,
) -> bool {
    |r: SkillPruningProtection, x: In<(int, int)>|
        skills::is_protection(r, x.session, turns, x.members, x.item)
}

/// When a finding is a system prompt that was paid for.
pub open spec fn tax_rule(
    turns: Seq<TurnRecord>,
    users: Seq<BySession<UserTurnRecord>>,
) -> spec_fn(SystemPromptTax, In<()>) -> bool {
    |r: SystemPromptTax, x: In<()>|
        skills::is_tax(r, x.session, turns, x.members, hotspots::records_of(users, x.session))
}

/// When a finding is a session that edits far more than it reads.
pub open spec fn heavy_rule(turns: Seq<TurnRecord>) -> spec_fn(EditHeavySession, In<()>) -> bool {
    |r: EditHeavySession, x: In<()>| edits::is_heavy(r, x.session, turns, x.members)
}

/// When a finding is a compaction.
pub open spec fn loss_rule(
    turns: Seq<TurnRecord>,
    content: Seq<BySession<ContentRecord>>,
    events: Seq<CompactionEvent>,
) -> spec_fn(CompactionLoss, (Option<usize>, usize)) -> bool {
    |r: CompactionLoss, x: (Option<usize>, usize)|
        compaction::is_loss(r, events, turns, content, x)
}

/// What the detectors of a session find.
pub struct SessionFindings {
    pub retry_loops: Vec<RetryLoop>,
    pub failure_runs: Vec<FailureRun>,
    pub cancelled_runs: Vec<CancellationRun>,
    pub edit_reverts: Vec<EditRevertCycle>,
    pub skill_recall_dups: Vec<SkillRecallDup>,
    pub skill_pruning_protection: Vec<SkillPruningProtection>,
    pub system_prompt_taxes: Vec<SystemPromptTax>,
    pub edit_heavy_sessions: Vec<EditHeavySession>,
}

impl SessionFindings {
    /// Whether these are the findings of the sessions `s`, session by session.
    pub open spec fn covers(
        self,
        turns: Seq<TurnRecord>,
        opts: DetectPatternsOptions,
        s: Seq<(Seq<char>, Seq<usize>)>,
    ) -> bool {
        let ev = opts.tool_result_events@;
        let content = opts.content_by_session@;
        let users = opts.user_turns_by_session@;
        &&& matched(
            self.retry_loops@,
            compaction::chain(s.map_values(|g: (Seq<char>, Seq<usize>)| retries_in(turns, ev, g))),
            retry_rule(turns, content, ev),
        )
        &&& matched(
            self.failure_runs@,
            compaction::chain(s.map_values(|g: (Seq<char>, Seq<usize>)| failures_in(turns, ev, g))),
            failure_rule(turns, content, ev),
        )
        &&& matched(
            self.cancelled_runs@,
            compaction::chain(
                s.map_values(|g: (Seq<char>, Seq<usize>)| cancellations_in(turns, ev, g)),
            ),
            cancellation_rule(turns),
        )
        &&& matched(
            self.edit_reverts@,
            compaction::chain(s.map_values(|g: (Seq<char>, Seq<usize>)| reverts_in(turns, g))),
            revert_rule(turns, content),
        )
        &&& matched(
            self.skill_recall_dups@,
            compaction::chain(s.map_values(|g: (Seq<char>, Seq<usize>)| dups_in(turns, g))),
            dup_rule(turns),
        )
        &&& matched(
            self.skill_pruning_protection@,
            compaction::chain(s.map_values(|g: (Seq<char>, Seq<usize>)| protections_in(turns, g))),
            protection_rule(turns),
        )
        &&& matched(
            self.system_prompt_taxes@,
            compaction::chain(s.map_values(|g: (Seq<char>, Seq<usize>)| taxes_in(turns, users, g))),
            tax_rule(turns, users),
        )
        &&& matched(
            self.edit_heavy_sessions@,
            compaction::chain(s.map_values(|g: (Seq<char>, Seq<usize>)| heavy_in(turns, g))),
            heavy_rule(turns),
        )
    }
}

fn find_reports(events: &[ToolResultEventRecord], id: &str) -> (r: Vec<usize>)
    ensures
        r@ == reports_of(events@, id@),
        attempts::inside(r@, events@.len()),
{
    let ghost keys = report_sessions(events@);
    let mut found: Vec<usize> = Vec::new();
    let mut i: usize = 0;
    assert(keys.take(0) =~= Seq::<Seq<char>>::empty());
    while i < events.len()
        invariant
            i <= events@.len(),
            keys == report_sessions(events@),
            found@ == groups::positions(keys.take(i as int), id@),
            attempts::inside(found@, events@.len()),
        decreases events@.len() - i,
    {
        assert(keys.take(i + 1).drop_last() =~= keys.take(i as int));
        assert(keys.take(i + 1).last() == events@[i as int].session_id@);
        if text::same(events[i].session_id.as_str(), id) {
            found.push(i);
        }
        i = i + 1;
    }
    assert(keys.take(i as int) =~= keys);
    found
}

/// Whether these are the findings of the one session `s`.
pub open spec fn found_in(
    f: SessionFindings,
    turns: Seq<TurnRecord>,
    opts: DetectPatternsOptions,
    s: (Seq<char>, Seq<usize>),
) -> bool {
    let ev = opts.tool_result_events@;
    let content = opts.content_by_session@;
    let users = opts.user_turns_by_session@;
    &&& matched(f.retry_loops@, retries_in(turns, ev, s), retry_rule(turns, content, ev))
    &&& matched(f.failure_runs@, failures_in(turns, ev, s), failure_rule(turns, content, ev))
    &&& matched(f.cancelled_runs@, cancellations_in(turns, ev, s), cancellation_rule(turns))
    &&& matched(f.edit_reverts@, reverts_in(turns, s), revert_rule(turns, content))
    &&& matched(f.skill_recall_dups@, dups_in(turns, s), dup_rule(turns))
    &&& matched(f.skill_pruning_protection@, protections_in(turns, s), protection_rule(turns))
    &&& matched(f.system_prompt_taxes@, taxes_in(turns, users, s), tax_rule(turns, users))
    &&& matched(f.edit_heavy_sessions@, heavy_in(turns, s), heavy_rule(turns))
}

fn find_streaks(
    session_id: &str,
    turns: &[TurnRecord],
    members: &Vec<usize>,
    events: &[ToolResultEventRecord],
    content: &[ContentRecord],
    lists: Ghost<Seq<BySession<ContentRecord>>>,
) -> (r: (Vec<RetryLoop>, Vec<FailureRun>, Vec<CancellationRun>))
    requires
        attempts::inside(members@, turns@.len()),
        content@ == hotspots::records_of(lists@, session_id@),
    ensures
        matched(
            r.0@,
            retries_in(turns@, events@, (session_id@, members@)),
            retry_rule(turns@, lists@, events@),
        ),
        matched(
            r.1@,
            failures_in(turns@, events@, (session_id@, members@)),
            failure_rule(turns@, lists@, events@),
        ),
        matched(
            r.2@,
            cancellations_in(turns@, events@, (session_id@, members@)),
            cancellation_rule(turns@),
        ),
{
    let ghost s = (session_id@, members@);
    let at = find_reports(events, session_id);
    let graph = at.len() > 0;
    let tried = if graph {
        attempts::attempts_from_events(turns, members, events, &at)
    } else {
        attempts::attempts_from_calls(turns, members)
    };
    assert(streaks::attempt_views(tried@) == attempts_of(turns@, events@, s));
    let retries = streaks::detect_retry_loops(session_id, turns, &tried, content, graph);
    let failures = streaks::detect_failure_runs(session_id, turns, &tried, content, graph);
    let cancelled = if graph {
        streaks::detect_cancellation_runs(session_id, turns, &tried)
    } else {
        Vec::new()
    };
    (retries, failures, cancelled)
}

fn find_in_session(
    session_id: &str,
    turns: &[TurnRecord],
    members: &Vec<usize>,
    opts: &DetectPatternsOptions,
) -> (r: SessionFindings)
    requires
        attempts::inside(members@, turns@.len()),
        edits::in_turn_order(turns@, members@),
    ensures
        found_in(r, turns@, *opts, (session_id@, members@)),
{
    let no_content: Vec<ContentRecord> = Vec::new();
    let no_users: Vec<UserTurnRecord> = Vec::new();
    assert(no_content@ =~= Seq::<ContentRecord>::empty());
    assert(no_users@ =~= Seq::<UserTurnRecord>::empty());
    let content: &Vec<ContentRecord> = match hotspots::find_session(
        opts.content_by_session,
        session_id,
    ) {
        Some(at) => &opts.content_by_session[at].records,
        None => &no_content,
    };
    let users: &Vec<UserTurnRecord> = match hotspots::find_session(
        opts.user_turns_by_session,
        session_id,
    ) {
        Some(at) => &opts.user_turns_by_session[at].records,
        None => &no_users,
    };
    let (retry_loops, failure_runs, cancelled_runs) = find_streaks(
        session_id,
        turns,
        members,
        opts.tool_result_events,
        content.as_slice(),
        Ghost(opts.content_by_session@),
    );
    let edit_reverts = edits::detect_edit_reverts(session_id, turns, members, content.as_slice());
    let skill_recall_dups = skills::detect_skill_recall_dups(session_id, turns, members);
    let skill_pruning_protection = skills::detect_skill_pruning_protection(
        session_id,
        turns,
        members,
    );
    let mut system_prompt_taxes: Vec<SystemPromptTax> = Vec::new();
    match skills::detect_system_prompt_tax(session_id, turns, members, users.as_slice()) {
        Some(t) => system_prompt_taxes.push(t),
        None => {},
    }
    let mut edit_heavy_sessions: Vec<EditHeavySession> = Vec::new();
    match edits::detect_edit_heavy(session_id, turns, members) {
        Some(e) => edit_heavy_sessions.push(e),
        None => {},
    }
    SessionFindings {
        retry_loops,
        failure_runs,
        cancelled_runs,
        edit_reverts,
        skill_recall_dups,
        skill_pruning_protection,
        system_prompt_taxes,
        edit_heavy_sessions,
    }
}

proof fn lemma_chain_push<A, B>(s: Seq<A>, x: A, f: spec_fn(A) -> Seq<B>)
    ensures
        compaction::chain(s.push(x).map_values(f)) == compaction::chain(s.map_values(f)) + f(x),
{
    assert(s.push(x).map_values(f).drop_last() =~= s.map_values(f));
}

fn extend<A, B>(
    to: &mut Vec<A>,
    from: Vec<A>,
    Ghost(s): Ghost<Seq<(Seq<char>, Seq<usize>)>>,
    Ghost(g): Ghost<(Seq<char>, Seq<usize>)>,
    Ghost(f): Ghost<spec_fn((Seq<char>, Seq<usize>)) -> Seq<B>>,
    Ghost(rule): Ghost<spec_fn(A, B) -> bool>,
)
    requires
        matched(old(to)@, compaction::chain(s.map_values(f)), rule),
        matched(from@, f(g), rule),
    ensures
        final(to)@ == old(to)@ + from@,
        matched(final(to)@, compaction::chain(s.push(g).map_values(f)), rule),
{
    let mut more = from;
    proof {
        lemma_matched_append(to@, more@, compaction::chain(s.map_values(f)), f(g), rule);
        lemma_chain_push(s, g, f);
    }
    to.append(&mut more);
}

fn merge(
    all: SessionFindings,
    one: SessionFindings,
    Ghost(turns): Ghost<Seq<TurnRecord>>,
    Ghost(opts): Ghost<DetectPatternsOptions>,
    Ghost(s): Ghost<Seq<(Seq<char>, Seq<usize>)>>,
    Ghost(g): Ghost<(Seq<char>, Seq<usize>)>,
) -> (r: SessionFindings)
    requires
        all.covers(turns, opts, s),
        found_in(one, turns, opts, g),
    ensures
        r.covers(turns, opts, s.push(g)),
{
    let ghost ev = opts.tool_result_events@;
    let ghost content = opts.content_by_session@;
    let ghost users = opts.user_turns_by_session@;
    let mut out = all;
    extend::<RetryLoop, In<Seq<AttemptView>>>(
        &mut out.retry_loops,
        one.retry_loops,
        Ghost(s),
        Ghost(g),
        Ghost(|g: (Seq<char>, Seq<usize>)| retries_in(turns, ev, g)),
        Ghost(retry_rule(turns, content, ev)),
    );
    extend::<FailureRun, In<Seq<AttemptView>>>(
        &mut out.failure_runs,
        one.failure_runs,
        Ghost(s),
        Ghost(g),
        Ghost(|g: (Seq<char>, Seq<usize>)| failures_in(turns, ev, g)),
        Ghost(failure_rule(turns, content, ev)),
    );
    extend::<CancellationRun, In<Seq<AttemptView>>>(
        &mut out.cancelled_runs,
        one.cancelled_runs,
        Ghost(s),
        Ghost(g),
        Ghost(|g: (Seq<char>, Seq<usize>)| cancellations_in(turns, ev, g)),
        Ghost(cancellation_rule(turns)),
    );
    extend::<EditRevertCycle, In<(int, int)>>(
        &mut out.edit_reverts,
        one.edit_reverts,
        Ghost(s),
        Ghost(g),
        Ghost(|g: (Seq<char>, Seq<usize>)| reverts_in(turns, g)),
        Ghost(revert_rule(turns, content)),
    );
    extend::<SkillRecallDup, In<(Seq<char>, Seq<usize>)>>(
        &mut out.skill_recall_dups,
        one.skill_recall_dups,
        Ghost(s),
        Ghost(g),
        Ghost(|g: (Seq<char>, Seq<usize>)| dups_in(turns, g)),
        Ghost(dup_rule(turns)),
    );
    extend::<SkillPruningProtection, In<(int, int)>>(
        &mut out.skill_pruning_protection,
        one.skill_pruning_protection,
        Ghost(s),
        Ghost(g),
        Ghost(|g: (Seq<char>, Seq<usize>)| protections_in(turns, g)),
        Ghost(protection_rule(turns)),
    );
    extend::<SystemPromptTax, In<()>>(
        &mut out.system_prompt_taxes,
        one.system_prompt_taxes,
        Ghost(s),
        Ghost(g),
        Ghost(|g: (Seq<char>, Seq<usize>)| taxes_in(turns, users, g)),
        Ghost(tax_rule(turns, users)),
    );
    extend::<EditHeavySession, In<()>>(
        &mut out.edit_heavy_sessions,
        one.edit_heavy_sessions,
        Ghost(s),
        Ghost(g),
        Ghost(|g: (Seq<char>, Seq<usize>)| heavy_in(turns, g)),
        Ghost(heavy_rule(turns)),
    );
    out
}

proof fn lemma_sessions_in_order(turns: Seq<TurnRecord>, members: Seq<usize>)
    ensures
        edits::in_turn_order(turns, sessions::by_turn_index(turns, members)),
{
    order::lemma_sort_in_order(members, sessions::earlier(turns));
}

fn find_in_sessions(turns: &[TurnRecord], opts: &DetectPatternsOptions) -> (r: SessionFindings)
    ensures
        r.covers(turns@, *opts, sessions::sessions_of(turns@)),
{
    let found = sessions::group_turns_by_session_sorted(turns);
    let ghost all = sessions::sessions_of(turns@);
    let mut out = SessionFindings {
        retry_loops: Vec::new(),
        failure_runs: Vec::new(),
        cancelled_runs: Vec::new(),
        edit_reverts: Vec::new(),
        skill_recall_dups: Vec::new(),
        skill_pruning_protection: Vec::new(),
        system_prompt_taxes: Vec::new(),
        edit_heavy_sessions: Vec::new(),
    };
    let mut i: usize = 0;
    assert(all.take(0).len() == 0);
    while i < found.len()
        invariant
            i <= found@.len(),
            all == sessions::sessions_of(turns@),
            all == groups::group_views(found@),
            all.len() == found@.len(),
            forall|i: int, j: int|
                #![trigger found@[i].members@[j]]
                0 <= i < found@.len() && 0 <= j < found@[i].members@.len()
                    ==> found@[i].members@[j] < turns@.len(),
            out.covers(turns@, *opts, all.take(i as int)),
        decreases found@.len() - i,
    {
        let ghost g = all[i as int];
        assert(g == groups::group_views(found@)[i as int]);
        assert(g == (found@[i as int].key@, found@[i as int].members@));
        assert(attempts::inside(found@[i as int].members@, turns@.len()));
        proof {
            let given = groups::groups_of(sessions::session_keys(turns@))[i as int];
            lemma_sessions_in_order(turns@, given.1);
            assert(g.1 == sessions::by_turn_index(turns@, given.1));
        }
        let one = find_in_session(found[i].key.as_str(), turns, &found[i].members, opts);
        out = merge(out, one, Ghost(turns@), Ghost(*opts), Ghost(all.take(i as int)), Ghost(g));
        assert(all.take(i + 1) =~= all.take(i as int).push(g));
        i = i + 1;
    }
    assert(all.take(i as int) =~= all);
    out
}

/// What a finding is of.
#[derive(Debug, Clone, Copy, PartialEq, Eq, Structural, Hash)]
pub enum PatternKind {
    RetryLoop,
    FailureRun,
    CancellationRun,
    Compaction,
    EditRevert,
    SkillRecallDup,
    SkillPruningProtection,
    SystemPromptTax,
    EditHeavy,
}

/// A finding as a summary sees it.
pub trait Finding {
    /// The session that it is in.
    spec fn session(&self) -> Seq<char>;

    /// How many attempts it is made of; 0 where that is of no account.
    spec fn weight(&self) -> u64;

    fn session_text(&self) -> (r: &str)
        ensures
            r@ == self.session(),
    ;

    fn count(&self) -> (r: u64)
        ensures
            r == self.weight(),
    ;
}

impl Finding for RetryLoop {
    open spec fn session(&self) -> Seq<char> {
        self.session_id@
    }

    open spec fn weight(&self) -> u64 {
        self.attempts
    }

    fn session_text(&self) -> (r: &str) {
        self.session_id.as_str()
    }

    fn count(&self) -> (r: u64) {
        self.attempts
    }
}

impl Finding for FailureRun {
    open spec fn session(&self) -> Seq<char> {
        self.session_id@
    }

    open spec fn weight(&self) -> u64 {
        self.length
    }

    fn session_text(&self) -> (r: &str) {
        self.session_id.as_str()
    }

    fn count(&self) -> (r: u64) {
        self.length
    }
}

impl Finding for CancellationRun {
    open spec fn session(&self) -> Seq<char> {
        self.session_id@
    }

    open spec fn weight(&self) -> u64 {
        0
    }

    fn session_text(&self) -> (r: &str) {
        self.session_id.as_str()
    }

    fn count(&self) -> (r: u64) {
        0
    }
}

impl Finding for CompactionLoss {
    open spec fn session(&self) -> Seq<char> {
        self.session_id@
    }

    open spec fn weight(&self) -> u64 {
        0
    }

    fn session_text(&self) -> (r: &str) {
        self.session_id.as_str()
    }

    fn count(&self) -> (r: u64) {
        0
    }
}

impl Finding for EditRevertCycle {
    open spec fn session(&self) -> Seq<char> {
        self.session_id@
    }

    open spec fn weight(&self) -> u64 {
        0
    }

    fn session_text(&self) -> (r: &str) {
        self.session_id.as_str()
    }

    fn count(&self) -> (r: u64) {
        0
    }
}

impl Finding for SkillRecallDup {
    open spec fn session(&self) -> Seq<char> {
        self.session_id@
    }

    open spec fn weight(&self) -> u64 {
        0
    }

    fn session_text(&self) -> (r: &str) {
        self.session_id.as_str()
    }

    fn count(&self) -> (r: u64) {
        0
    }
}

impl Finding for SkillPruningProtection {
    open spec fn session(&self) -> Seq<char> {
        self.session_id@
    }

    open spec fn weight(&self) -> u64 {
        0
    }

    fn session_text(&self) -> (r: &str) {
        self.session_id.as_str()
    }

    fn count(&self) -> (r: u64) {
        0
    }
}

impl Finding for SystemPromptTax {
    open spec fn session(&self) -> Seq<char> {
        self.session_id@
    }

    open spec fn weight(&self) -> u64 {
        0
    }

    fn session_text(&self) -> (r: &str) {
        self.session_id.as_str()
    }

    fn count(&self) -> (r: u64) {
        0
    }
}

impl Finding for EditHeavySession {
    open spec fn session(&self) -> Seq<char> {
        self.session_id@
    }

    open spec fn weight(&self) -> u64 {
        0
    }

    fn session_text(&self) -> (r: &str) {
        self.session_id.as_str()
    }

    fn count(&self) -> (r: u64) {
        0
    }
}

/// One finding of a list: its kind and its position in the list of that kind.
#[derive(Debug, Clone, Copy, PartialEq, Eq, Structural)]
pub struct Contribution {
    pub kind: PatternKind,
    pub index: usize,
}

struct Entry {
    session_id: String,
    of: Contribution,
    weight: u64,
}

/// A finding with its session and its weight.
#[verifier::ext_equal]
pub struct EntryView {
    pub session: Seq<char>,
    pub of: Contribution,
    pub weight: u64,
}

impl Entry {
    spec fn view(&self) -> EntryView {
        EntryView { session: self.session_id@, of: self.of, weight: self.weight }
    }
}

spec fn entry_views(v: Seq<Entry>) -> Seq<EntryView> {
    v.map_values(|e: Entry| e@)
}

/// The findings of one list.
pub open spec fn entries_of<F: Finding>(list: Seq<F>, kind: PatternKind) -> Seq<EntryView> {
    Seq::new(
        list.len(),
        |i: int|
            EntryView {
                session: list[i].session(),
                of: Contribution { kind, index: i as usize },
                weight: list[i].weight(),
            },
    )
}

fn push_entries<F: Finding>(to: &mut Vec<Entry>, list: &Vec<F>, kind: PatternKind)
    ensures
        entry_views(final(to)@) == entry_views(old(to)@) + entries_of(list@, kind),
{
    let ghost start = entry_views(to@);
    let mut i: usize = 0;
    assert(entries_of(list@, kind).take(0) =~= Seq::<EntryView>::empty());
    assert(start + Seq::<EntryView>::empty() =~= start);
    while i < list.len()
        invariant
            i <= list@.len(),
            entry_views(to@) == start + entries_of(list@, kind).take(i as int),
        decreases list@.len() - i,
    {
        let ghost before = entry_views(to@);
        let e = Entry {
            session_id: list[i].session_text().to_owned(),
            of: Contribution { kind, index: i },
            weight: list[i].count(),
        };
        to.push(e);
        assert(entry_views(to@) =~= before.push(e@));
        assert(entries_of(list@, kind).take(i + 1) =~= entries_of(list@, kind).take(
            i as int,
        ).push(e@));
        i = i + 1;
    }
    assert(entries_of(list@, kind).take(i as int) =~= entries_of(list@, kind));
}

/// All findings, kind by kind.
pub open spec fn all_entries(f: SessionFindings, compactions: Seq<CompactionLoss>) -> Seq<
    EntryView,
> {
    entries_of(f.retry_loops@, PatternKind::RetryLoop) + entries_of(
        f.failure_runs@,
        PatternKind::FailureRun,
    ) + entries_of(f.cancelled_runs@, PatternKind::CancellationRun) + entries_of(
        compactions,
        PatternKind::Compaction,
    ) + entries_of(f.edit_reverts@, PatternKind::EditRevert) + entries_of(
        f.skill_recall_dups@,
        PatternKind::SkillRecallDup,
    ) + entries_of(f.skill_pruning_protection@, PatternKind::SkillPruningProtection) + entries_of(
        f.system_prompt_taxes@,
        PatternKind::SystemPromptTax,
    ) + entries_of(f.edit_heavy_sessions@, PatternKind::EditHeavy)
}

/// What was found in one session.
#[derive(Debug, Clone, PartialEq)]
pub struct SessionPatternSummary {
    pub session_id: String,
    pub retry_loop_count: u64,
    pub failure_run_count: u64,
    pub cancellation_run_count: u64,
    pub consecutive_failure_max: u64,
    pub compaction_count: u64,
    pub edit_revert_count: u64,
    pub skill_recall_dup_count: u64,
    pub skill_pruning_protection_count: u64,
    pub system_prompt_tax_count: u64,
    pub edit_heavy_count: u64,
    pub total_retries: u128,
    /// The findings whose costs add up to the total, in order.
    pub priced: Vec<Contribution>,
}

/// The entries at `at`.
pub open spec fn entries_at(all: Seq<EntryView>, at: Seq<usize>) -> Seq<EntryView> {
    at.map_values(|i: usize| all[i as int])
}

/// Number of entries of a kind.
pub open spec fn kind_count(e: Seq<EntryView>, kind: PatternKind) -> nat
    decreases e.len(),
{
    if e.len() == 0 {
        0
    } else {
        kind_count(e.drop_last(), kind) + if e.last().of.kind == kind {
            1nat
        } else {
            0nat
        }
    }
}

/// The largest weight of an entry of a kind, 0 where there is none.
pub open spec fn kind_max(e: Seq<EntryView>, kind: PatternKind) -> u64
    decreases e.len(),
{
    if e.len() == 0 {
        0
    } else {
        let rest = kind_max(e.drop_last(), kind);
        if e.last().of.kind == kind && e.last().weight > rest {
            e.last().weight
        } else {
            rest
        }
    }
}

/// The weights of the entries of a kind.
pub open spec fn kind_sum(e: Seq<EntryView>, kind: PatternKind) -> nat
    decreases e.len(),
{
    if e.len() == 0 {
        0
    } else {
        kind_sum(e.drop_last(), kind) + if e.last().of.kind == kind {
            e.last().weight as nat
        } else {
            0nat
        }
    }
}

/// The entries that bear a cost of their own. What an edit-heavy session costs
/// is in the costs of its other findings already.
pub open spec fn priced_of(e: Seq<EntryView>) -> Seq<Contribution>
    decreases e.len(),
{
    if e.len() == 0 {
        Seq::empty()
    } else {
        let rest = priced_of(e.drop_last());
        if e.last().of.kind == PatternKind::EditHeavy {
            rest
        } else {
            rest.push(e.last().of)
        }
    }
}

/// Whether `r` sums up the findings `e` of a session.
pub open spec fn sums_up(r: SessionPatternSummary, session: Seq<char>, e: Seq<EntryView>) -> bool {
    &&& r.session_id@ == session
    &&& r.retry_loop_count == kind_count(e, PatternKind::RetryLoop)
    &&& r.failure_run_count == kind_count(e, PatternKind::FailureRun)
    &&& r.cancellation_run_count == kind_count(e, PatternKind::CancellationRun)
    &&& r.consecutive_failure_max == kind_max(e, PatternKind::FailureRun)
    &&& r.compaction_count == kind_count(e, PatternKind::Compaction)
    &&& r.edit_revert_count == kind_count(e, PatternKind::EditRevert)
    &&& r.skill_recall_dup_count == kind_count(e, PatternKind::SkillRecallDup)
    &&& r.skill_pruning_protection_count == kind_count(e, PatternKind::SkillPruningProtection)
    &&& r.system_prompt_tax_count == kind_count(e, PatternKind::SystemPromptTax)
    &&& r.edit_heavy_count == kind_count(e, PatternKind::EditHeavy)
    &&& r.total_retries == kind_sum(e, PatternKind::RetryLoop)
    &&& r.priced@ == priced_of(e)
}

/// The session of each finding.
pub open spec fn entry_sessions(all: Seq<EntryView>) -> Seq<Seq<char>> {
    all.map_values(|e: EntryView| e.session)
}

/// Whether `r` has a summary for each session with a finding, sessions in the
/// order in which the findings name them.
pub open spec fn summarizes(r: Seq<SessionPatternSummary>, all: Seq<EntryView>) -> bool {
    let g = groups::groups_of(entry_sessions(all));
    &&& r.len() == g.len()
    &&& forall|i: int|
        0 <= i < r.len() ==> sums_up(#[trigger] r[i], g[i].0, entries_at(all, g[i].1))
}

fn count_entries(entries: &Vec<Entry>, at: &Vec<usize>, kind: PatternKind) -> (r: u64)
    requires
        attempts::inside(at@, entries@.len()),
    ensures
        r == kind_count(entries_at(entry_views(entries@), at@), kind),
{
    let ghost all = entry_views(entries@);
    let ghost e = entries_at(all, at@);
    let mut n: u64 = 0;
    let mut i: usize = 0;
    assert(e.take(0) =~= Seq::<EntryView>::empty());
    while i < at.len()
        invariant
            i <= at@.len(),
            attempts::inside(at@, entries@.len()),
            all == entry_views(entries@),
            e == entries_at(all, at@),
            n == kind_count(e.take(i as int), kind),
            n <= i,
        decreases at@.len() - i,
    {
        assert(e.take(i + 1).drop_last() =~= e.take(i as int));
        assert(e.take(i + 1).last() == entries@[at@[i as int] as int]@);
        if entries[at[i]].of.kind == kind {
            n = n + 1;
        }
        i = i + 1;
    }
    assert(e.take(i as int) =~= e);
    n
}

fn longest_run(entries: &Vec<Entry>, at: &Vec<usize>) -> (r: u64)
    requires
        attempts::inside(at@, entries@.len()),
    ensures
        r == kind_max(entries_at(entry_views(entries@), at@), PatternKind::FailureRun),
{
    let ghost all = entry_views(entries@);
    let ghost e = entries_at(all, at@);
    let mut n: u64 = 0;
    let mut i: usize = 0;
    assert(e.take(0) =~= Seq::<EntryView>::empty());
    while i < at.len()
        invariant
            i <= at@.len(),
            attempts::inside(at@, entries@.len()),
            all == entry_views(entries@),
            e == entries_at(all, at@),
            n == kind_max(e.take(i as int), PatternKind::FailureRun),
        decreases at@.len() - i,
    {
        assert(e.take(i + 1).drop_last() =~= e.take(i as int));
        assert(e.take(i + 1).last() == entries@[at@[i as int] as int]@);
        let entry = &entries[at[i]];
        if entry.of.kind == PatternKind::FailureRun && entry.weight > n {
            n = entry.weight;
        }
        i = i + 1;
    }
    assert(e.take(i as int) =~= e);
    n
}

fn sum_retries(entries: &Vec<Entry>, at: &Vec<usize>) -> (r: u128)
    requires
        attempts::inside(at@, entries@.len()),
    ensures
        r == kind_sum(entries_at(entry_views(entries@), at@), PatternKind::RetryLoop),
{
    let ghost all = entry_views(entries@);
    let ghost e = entries_at(all, at@);
    let mut n: u128 = 0;
    let mut i: usize = 0;
    assert(e.take(0) =~= Seq::<EntryView>::empty());
    while i < at.len()
        invariant
            i <= at@.len(),
            attempts::inside(at@, entries@.len()),
            all == entry_views(entries@),
            e == entries_at(all, at@),
            n == kind_sum(e.take(i as int), PatternKind::RetryLoop),
            n <= i * u64::MAX,
        decreases at@.len() - i,
    {
        assert(e.take(i + 1).drop_last() =~= e.take(i as int));
        assert(e.take(i + 1).last() == entries@[at@[i as int] as int]@);
        assert((i + 1) * u64::MAX == i * u64::MAX + u64::MAX) by (nonlinear_arith);
        assert((i + 1) * u64::MAX <= u128::MAX) by (nonlinear_arith)
            requires
                i + 1 <= usize::MAX,
        ;
        let entry = &entries[at[i]];
        if entry.of.kind == PatternKind::RetryLoop {
            n = n + entry.weight as u128;
        }
        i = i + 1;
    }
    assert(e.take(i as int) =~= e);
    n
}

fn list_priced(entries: &Vec<Entry>, at: &Vec<usize>) -> (r: Vec<Contribution>)
    requires
        attempts::inside(at@, entries@.len()),
    ensures
        r@ == priced_of(entries_at(entry_views(entries@), at@)),
{
    let ghost all = entry_views(entries@);
    let ghost e = entries_at(all, at@);
    let mut out: Vec<Contribution> = Vec::new();
    let mut i: usize = 0;
    assert(e.take(0) =~= Seq::<EntryView>::empty());
    while i < at.len()
        invariant
            i <= at@.len(),
            attempts::inside(at@, entries@.len()),
            all == entry_views(entries@),
            e == entries_at(all, at@),
            out@ == priced_of(e.take(i as int)),
        decreases at@.len() - i,
    {
        assert(e.take(i + 1).drop_last() =~= e.take(i as int));
        assert(e.take(i + 1).last() == entries@[at@[i as int] as int]@);
        let of = entries[at[i]].of;
        if of.kind != PatternKind::EditHeavy {
            out.push(of);
        }
        i = i + 1;
    }
    assert(e.take(i as int) =~= e);
    out
}

fn summarize(session_id: &str, entries: &Vec<Entry>, at: &Vec<usize>) -> (r: SessionPatternSummary)
    requires
        attempts::inside(at@, entries@.len()),
    ensures
        sums_up(r, session_id@, entries_at(entry_views(entries@), at@)),
{
    SessionPatternSummary {
        session_id: session_id.to_owned(),
        retry_loop_count: count_entries(entries, at, PatternKind::RetryLoop),
        failure_run_count: count_entries(entries, at, PatternKind::FailureRun),
        cancellation_run_count: count_entries(entries, at, PatternKind::CancellationRun),
        consecutive_failure_max: longest_run(entries, at),
        compaction_count: count_entries(entries, at, PatternKind::Compaction),
        edit_revert_count: count_entries(entries, at, PatternKind::EditRevert),
        skill_recall_dup_count: count_entries(entries, at, PatternKind::SkillRecallDup),
        skill_pruning_protection_count: count_entries(
            entries,
            at,
            PatternKind::SkillPruningProtection,
        ),
        system_prompt_tax_count: count_entries(entries, at, PatternKind::SystemPromptTax),
        edit_heavy_count: count_entries(entries, at, PatternKind::EditHeavy),
        total_retries: sum_retries(entries, at),
        priced: list_priced(entries, at),
    }
}

/// Sums the findings up, session by session.
pub fn build_summaries(f: &SessionFindings, compactions: &Vec<CompactionLoss>) -> (r: Vec<
    SessionPatternSummary,
>)
    ensures
        summarizes(r@, all_entries(*f, compactions@)),
{
    let mut entries: Vec<Entry> = Vec::new();
    assert(entry_views(entries@) =~= Seq::<EntryView>::empty());
    push_entries(&mut entries, &f.retry_loops, PatternKind::RetryLoop);
    assert(entry_views(entries@) =~= entries_of(f.retry_loops@, PatternKind::RetryLoop));
    push_entries(&mut entries, &f.failure_runs, PatternKind::FailureRun);
    push_entries(&mut entries, &f.cancelled_runs, PatternKind::CancellationRun);
    push_entries(&mut entries, compactions, PatternKind::Compaction);
    push_entries(&mut entries, &f.edit_reverts, PatternKind::EditRevert);
    push_entries(&mut entries, &f.skill_recall_dups, PatternKind::SkillRecallDup);
    push_entries(&mut entries, &f.skill_pruning_protection, PatternKind::SkillPruningProtection);
    push_entries(&mut entries, &f.system_prompt_taxes, PatternKind::SystemPromptTax);
    push_entries(&mut entries, &f.edit_heavy_sessions, PatternKind::EditHeavy);
    let ghost all = entry_views(entries@);
    let ghost names = entry_sessions(all);
    let mut keys: Vec<String> = Vec::new();
    let mut i: usize = 0;
    while i < entries.len()
        invariant
            i <= entries@.len(),
            keys@.len() == i,
            forall|k: int| 0 <= k < i ==> (#[trigger] keys@[k])@ == entries@[k].session_id@,
        decreases entries@.len() - i,
    {
        keys.push(entries[i].session_id.clone());
        i = i + 1;
    }
    assert(text::views(keys@) =~= names);
    let found = groups::group_by_key(&keys);
    let ghost g = groups::groups_of(names);
    let mut out: Vec<SessionPatternSummary> = Vec::new();
    let mut j: usize = 0;
    while j < found.len()
        invariant
            j <= found@.len(),
            all == entry_views(entries@),
            names == entry_sessions(all),
            names.len() == entries@.len(),
            g == groups::groups_of(names),
            g == groups::group_views(found@),
            g.len() == found@.len(),
            out@.len() == j,
            forall|i: int|
                0 <= i < j ==> sums_up(#[trigger] out@[i], g[i].0, entries_at(all, g[i].1)),
        decreases found@.len() - j,
    {
        let n: usize = entries.len();
        let ghost key = groups::first_seen(names)[j as int];
        assert(g[j as int] == groups::group_views(found@)[j as int]);
        proof {
            groups::lemma_positions(names, key);
            assert(g[j as int] == (key, groups::positions(names, key)));
            let members = found@[j as int].members@;
            assert forall|k: int| 0 <= k < members.len() implies (#[trigger] members[k])
                < entries@.len() by {
                assert(groups::positions(names, key)[k] < names.len());
            }
        }
        out.push(summarize(found[j].key.as_str(), &entries, &found[j].members));
        j = j + 1;
    }
    out
}

/// The sessions with the largest keys first, ties as they stand.
pub fn rank_summaries(rows: Vec<SessionPatternSummary>, keys: &[i64]) -> (r: Vec<
    SessionPatternSummary,
>)
    requires
        keys@.len() == rows@.len(),
    ensures
        r@ == order::in_rank(rows@, keys@, order::unnamed(rows@.len())),
{
    order::arrange_by_key(rows, keys)
}

/// What all detectors find.
pub struct PatternsResult {
    pub retry_loops: Vec<RetryLoop>,
    pub failure_runs: Vec<FailureRun>,
    pub cancelled_runs: Vec<CancellationRun>,
    pub compactions: Vec<CompactionLoss>,
    pub edit_reverts: Vec<EditRevertCycle>,
    pub skill_recall_dups: Vec<SkillRecallDup>,
    pub skill_pruning_protection: Vec<SkillPruningProtection>,
    pub system_prompt_taxes: Vec<SystemPromptTax>,
    pub edit_heavy_sessions: Vec<EditHeavySession>,
    pub session_summaries: Vec<SessionPatternSummary>,
}

impl PatternsResult {
    /// The findings of the detectors that look at one session.
    pub open spec fn in_sessions(self) -> SessionFindings {
        SessionFindings {
            retry_loops: self.retry_loops,
            failure_runs: self.failure_runs,
            cancelled_runs: self.cancelled_runs,
            edit_reverts: self.edit_reverts,
            skill_recall_dups: self.skill_recall_dups,
            skill_pruning_protection: self.skill_pruning_protection,
            system_prompt_taxes: self.system_prompt_taxes,
            edit_heavy_sessions: self.edit_heavy_sessions,
        }
    }
}

/// Runs every detector over the turns.
pub fn detect_patterns(turns: &[TurnRecord], opts: &DetectPatternsOptions) -> (r: PatternsResult)
    ensures
        r.in_sessions().covers(turns@, *opts, sessions::sessions_of(turns@)),
        matched(
            r.compactions@,
            compaction::compactions_of(opts.compactions@),
            loss_rule(turns@, opts.content_by_session@, opts.compactions@),
        ),
        summarizes(r.session_summaries@, all_entries(r.in_sessions(), r.compactions@)),
{
    let found = find_in_sessions(turns, opts);
    let compactions = compaction::detect_compaction_losses(
        opts.compactions,
        turns,
        opts.content_by_session,
    );
    let session_summaries = build_summaries(&found, &compactions);
    PatternsResult {
        retry_loops: found.retry_loops,
        failure_runs: found.failure_runs,
        cancelled_runs: found.cancelled_runs,
        compactions,
        edit_reverts: found.edit_reverts,
        skill_recall_dups: found.skill_recall_dups,
        skill_pruning_protection: found.skill_pruning_protection,
        system_prompt_taxes: found.system_prompt_taxes,
        edit_heavy_sessions: found.edit_heavy_sessions,
        session_summaries,
    }
}

proof fn lemma_kind_count_split(all: Seq<EntryView>, kind: PatternKind, key: Seq<char>)
    requires
        all.len() <= usize::MAX,
    ensures
        all.len() > 0 ==> kind_count(
            entries_at(all, groups::positions(entry_sessions(all), key)),
            kind,
        ) == kind_count(
            entries_at(
                all.drop_last(),
                groups::positions(entry_sessions(all.drop_last()), key),
            ),
            kind,
        ) + if all.last().session == key && all.last().of.kind == kind {
            1int
        } else {
            0int
        },
{
    if all.len() > 0 {
        let d = all.drop_last();
        assert(entry_sessions(all).drop_last() =~= entry_sessions(d));
        let p = groups::positions(entry_sessions(d), key);
        groups::lemma_positions(entry_sessions(d), key);
        assert(entries_at(all, p) =~= entries_at(d, p)) by {
            assert forall|i: int| 0 <= i < p.len() implies all[p[i] as int] == d[p[i] as int] by {
                assert(p[i] < entry_sessions(d).len());
            }
        }
        if all.last().session == key {
            let q = p.push((all.len() - 1) as usize);
            assert(groups::positions(entry_sessions(all), key) == q);
            assert(entries_at(all, q) =~= entries_at(all, p).push(all.last()));
            assert(entries_at(all, q).drop_last() =~= entries_at(all, p));
        }
    }
}

/// The counts of a kind over the sessions `keys`.
pub open spec fn counted(all: Seq<EntryView>, kind: PatternKind, keys: Seq<Seq<char>>) -> nat
    decreases keys.len(),
{
    if keys.len() == 0 {
        0
    } else {
        counted(all, kind, keys.drop_last()) + kind_count(
            entries_at(all, groups::positions(entry_sessions(all), keys.last())),
            kind,
        )
    }
}

proof fn lemma_counted_step(all: Seq<EntryView>, kind: PatternKind, keys: Seq<Seq<char>>)
    requires
        0 < all.len() <= usize::MAX,
        keys.no_duplicates(),
    ensures
        counted(all, kind, keys) == counted(all.drop_last(), kind, keys) + if keys.contains(
            all.last().session,
        ) && all.last().of.kind == kind {
            1int
        } else {
            0int
        },
    decreases keys.len(),
{
    if keys.len() > 0 {
        let p = keys.drop_last();
        let x = all.last().session;
        lemma_counted_step(all, kind, p);
        lemma_kind_count_split(all, kind, keys.last());
        if keys.contains(x) && keys.last() != x {
            let i = choose|i: int| 0 <= i < keys.len() && keys[i] == x;
            assert(p[i] == x);
        }
        if keys.last() == x {
            assert(keys[keys.len() - 1] == x);
            if p.contains(x) {
                let i = choose|i: int| 0 <= i < p.len() && p[i] == x;
                assert(keys[i] == keys[keys.len() - 1]);
            }
        }
        if p.contains(x) {
            let i = choose|i: int| 0 <= i < p.len() && p[i] == x;
            assert(keys[i] == x);
        }
    }
}

/// No finding is lost and none is counted twice: the counts of a kind in all
/// summaries add up to the number of findings of that kind.
pub proof fn lemma_summaries_count_all(all: Seq<EntryView>, kind: PatternKind)
    requires
        all.len() <= usize::MAX,
    ensures
        counted(all, kind, groups::first_seen(entry_sessions(all))) == kind_count(all, kind),
    decreases all.len(),
{
    let names = entry_sessions(all);
    if all.len() > 0 {
        let d = all.drop_last();
        assert(names.drop_last() =~= entry_sessions(d));
        let keys = groups::first_seen(entry_sessions(d));
        lemma_summaries_count_all(d, kind);
        groups::lemma_first_seen(entry_sessions(d));
        groups::lemma_first_seen(names);
        let next = groups::first_seen(names);
        lemma_counted_step(all, kind, next);
        assert(names[all.len() - 1] == all.last().session);
        assert(names.contains(all.last().session));
        if !keys.contains(all.last().session) {
            assert(next.drop_last() =~= keys);
            let p = groups::positions(entry_sessions(d), all.last().session);
            groups::lemma_positions(entry_sessions(d), all.last().session);
            if p.len() > 0 {
                assert(entry_sessions(d)[p[0] as int] == all.last().session);
                assert(entry_sessions(d).contains(all.last().session));
            }
            assert(entries_at(d, p).len() == 0);
        }
    }
}

} // verus!
