//! Findings in words: what was wasted, how bad it is, and what to do about it.

use crate::findings::{
    CancellationRun, CompactionLoss, CompactionLostWork, EditHeavySession, EditRevertCycle,
    EditRevertSamplePreview, FailureRun, FailureRunErrorSignature, PatternEventSource, RetryLoop,
    SkillPruningProtection, SkillRecallDup, SystemPromptTax,
};
use crate::order;
use crate::order::Ordered;
use crate::patterns::PatternsResult;
use crate::records::SourceNames;
use crate::text;
use vstd::prelude::*;

verus! {

/// Something to do about a finding.
#[derive(Debug, Clone, PartialEq)]
pub enum WasteAction {
    /// Text to copy somewhere.
    Paste { label: String, text: String },
    /// A command for the shell.
    Command { label: String, text: String },
    /// A file to write.
    FileContent { label: String, path: String, content: String },
}

/// What a [`WasteAction`] says.
#[verifier::ext_equal]
pub enum ActionView {
    Paste { label: Seq<char>, text: Seq<char> },
    Command { label: Seq<char>, text: Seq<char> },
    FileContent { label: Seq<char>, path: Seq<char>, content: Seq<char> },
}

impl View for WasteAction {
    type V = ActionView;

    open spec fn view(&self) -> ActionView {
        match self {
            WasteAction::Paste { label, text } => ActionView::Paste { label: label@, text: text@ },
            WasteAction::Command { label, text } => ActionView::Command {
                label: label@,
                text: text@,
            },
            WasteAction::FileContent { label, path, content } => ActionView::FileContent {
                label: label@,
                path: path@,
                content: content@,
            },
        }
    }
}

/// What the actions say.
pub open spec fn action_views(v: Seq<WasteAction>) -> Seq<ActionView> {
    v.map_values(|a: WasteAction| a@)
}

/// How bad a finding is.
#[derive(Debug, Clone, Copy, PartialEq, Eq, Structural, Hash)]
pub enum WasteSeverity {
    Info,
    Warn,
    High,
}

/// The rank of a severity, the worst first.
pub open spec fn severity_rank(s: WasteSeverity) -> int {
    match s {
        WasteSeverity::High => 0,
        WasteSeverity::Warn => 1,
        WasteSeverity::Info => 2,
    }
}

fn severity_order(s: WasteSeverity) -> (r: u8)
    ensures
        r == severity_rank(s),
{
    match s {
        WasteSeverity::High => 0,
        WasteSeverity::Warn => 1,
        WasteSeverity::Info => 2,
    }
}

/// An amount of money, as far as a finding goes by it.
#[derive(Debug, Clone, PartialEq)]
pub struct Amount {
    /// The amount written out.
    pub text: String,
    /// How bad it is to waste that much.
    pub severity: WasteSeverity,
    /// A number that ranks the amount among others.
    pub key: i64,
}

/// What an [`Amount`] says.
#[verifier::ext_equal]
pub struct AmountView {
    pub text: Seq<char>,
    pub severity: WasteSeverity,
    pub key: i64,
}

impl View for Amount {
    type V = AmountView;

    open spec fn view(&self) -> AmountView {
        AmountView { text: self.text@, severity: self.severity, key: self.key }
    }
}

/// Something that was wasted.
#[derive(Debug, Clone, PartialEq)]
pub struct WasteFinding {
    pub kind: String,
    pub severity: WasteSeverity,
    pub session_id: String,
    pub title: String,
    pub detail: String,
    /// Tokens that each session could save.
    pub tokens_per_session: Option<u64>,
    /// The rank of what each session could save.
    pub cost_key: i64,
    pub actions: Vec<WasteAction>,
    pub event_source: Option<PatternEventSource>,
}

/// What a [`WasteFinding`] says.
#[verifier::ext_equal]
pub struct FindingView {
    pub kind: Seq<char>,
    pub severity: WasteSeverity,
    pub session_id: Seq<char>,
    pub title: Seq<char>,
    pub detail: Seq<char>,
    pub tokens_per_session: Option<u64>,
    pub cost_key: i64,
    pub actions: Seq<ActionView>,
    pub event_source: Option<PatternEventSource>,
}

impl View for WasteFinding {
    type V = FindingView;

    open spec fn view(&self) -> FindingView {
        FindingView {
            kind: self.kind@,
            severity: self.severity,
            session_id: self.session_id@,
            title: self.title@,
            detail: self.detail@,
            tokens_per_session: self.tokens_per_session,
            cost_key: self.cost_key,
            actions: action_views(self.actions@),
            event_source: self.event_source,
        }
    }
}

/// What the findings say.
pub open spec fn finding_views(v: Seq<WasteFinding>) -> Seq<FindingView> {
    v.map_values(|f: WasteFinding| f@)
}

/// The command that shows a session.
pub open spec fn inspect_action(session: Seq<char>) -> ActionView {
    ActionView::Command {
        label: "Inspect this session"@,
        text: "burn hotspots --session "@ + session,
    }
}

/// The command that shows a session.
pub fn hotspots_action(session_id: &str) -> (r: WasteAction)
    ensures
        r@ == inspect_action(session_id@),
{
    WasteAction::Command {
        label: "Inspect this session".to_owned(),
        text: text::join2("burn hotspots --session ", session_id),
    }
}

/// A finding that a session costs an amount.
pub open spec fn cost_finding(
    kind: Seq<char>,
    session: Seq<char>,
    amount: AmountView,
    title: Seq<char>,
    detail: Seq<char>,
) -> FindingView {
    FindingView {
        kind,
        severity: amount.severity,
        session_id: session,
        title,
        detail,
        tokens_per_session: None,
        cost_key: amount.key,
        actions: seq![inspect_action(session)],
        event_source: None,
    }
}

impl WasteFinding {
    /// A finding that a session costs an amount.
    pub fn session_cost(
        kind: &str,
        session_id: &str,
        amount: &Amount,
        title: String,
        detail: String,
    ) -> (r: WasteFinding)
        ensures
            r@ == cost_finding(kind@, session_id@, amount@, title@, detail@),
    {
        let mut actions: Vec<WasteAction> = Vec::new();
        actions.push(hotspots_action(session_id));
        assert(action_views(actions@) =~= seq![inspect_action(session_id@)]);
        WasteFinding {
            kind: kind.to_owned(),
            severity: amount.severity,
            session_id: session_id.to_owned(),
            title,
            detail,
            tokens_per_session: None,
            cost_key: amount.key,
            actions,
            event_source: None,
        }
    }
}

/// A number below 1000 with three digits.
pub open spec fn three_digits(n: nat) -> Seq<char> {
    seq![
        text::digit((n / 100 % 10) as int),
        text::digit((n / 10 % 10) as int),
        text::digit((n % 10) as int),
    ]
}

/// A number with a comma between thousands.
pub open spec fn with_commas(n: nat) -> Seq<char>
    decreases n,
{
    if n < 1000 {
        text::decimal(n)
    } else {
        with_commas(n / 1000) + ","@ + three_digits(n % 1000)
    }
}

/// A number with a comma between thousands.
pub fn format_with_commas(n: u128) -> (r: String)
    ensures
        r@ == with_commas(n as nat),
    decreases n,
{
    if n < 1000 {
        text::decimal_string(n as u64)
    } else {
        let mut s = format_with_commas(n / 1000);
        let k: u64 = (n % 1000) as u64;
        text::push_str(&mut s, ",");
        let ghost before = s@;
        s.push(text::digit_char(k / 100 % 10));
        s.push(text::digit_char(k / 10 % 10));
        s.push(text::digit_char(k % 10));
        assert(s@ =~= before + three_digits(k as nat));
        s
    }
}

/// A number in decimal.
pub fn long_decimal(n: u128) -> (r: String)
    ensures
        r@ == text::decimal(n as nat),
    decreases n,
{
    if n < 10 {
        text::decimal_string(n as u64)
    } else {
        let mut s = long_decimal(n / 10);
        s.push(text::digit_char((n % 10) as u64));
        s
    }
}

/// A space and the target, where there is one.
pub open spec fn target_part(t: Option<String>) -> Seq<char> {
    match t {
        Some(s) => " "@ + s@,
        None => Seq::empty(),
    }
}

fn write_target_part(t: &Option<String>) -> (r: String)
    ensures
        r@ == target_part(*t),
{
    match t {
        Some(s) => text::join2(" ", s.as_str()),
        None => String::new(),
    }
}

/// The error in quotes, where there is one.
pub open spec fn error_part(t: Option<String>) -> Seq<char> {
    match t {
        Some(s) => ": '"@ + s@ + "'"@,
        None => Seq::empty(),
    }
}

fn write_error_part(t: &Option<String>) -> (r: String)
    ensures
        r@ == error_part(*t),
{
    match t {
        Some(s) => text::join3(": '", s.as_str(), "'"),
        None => String::new(),
    }
}

/// The error of each tool.
pub open spec fn error_list(v: Seq<FailureRunErrorSignature>) -> Seq<Seq<char>> {
    v.map_values(|s: FailureRunErrorSignature| s.tool@ + "='"@ + s.first_line@ + "'"@)
}

/// The errors of the tools, where there are any.
pub open spec fn errors_part(t: Option<Vec<FailureRunErrorSignature>>) -> Seq<char> {
    match t {
        Some(v) => if v@.len() > 0 {
            " Errors: "@ + text::joined(error_list(v@), "; "@) + "."@
        } else {
            Seq::empty()
        },
        None => Seq::empty(),
    }
}

fn write_errors_part(t: &Option<Vec<FailureRunErrorSignature>>) -> (r: String)
    ensures
        r@ == errors_part(*t),
{
    match t {
        Some(v) => {
            if v.len() == 0 {
                return String::new();
            }
            let mut parts: Vec<String> = Vec::new();
            let mut i: usize = 0;
            while i < v.len()
                invariant
                    i <= v@.len(),
                    parts@.len() == i,
                    forall|k: int| 0 <= k < i ==> (#[trigger] parts@[k])@ == error_list(v@)[k],
                decreases v@.len() - i,
            {
                let mut p = text::join3(v[i].tool.as_str(), "='", v[i].first_line.as_str());
                text::push_str(&mut p, "'");
                parts.push(p);
                i = i + 1;
            }
            assert(text::views(parts@) =~= error_list(v@));
            text::join3(" Errors: ", text::join(&parts, "; ").as_str(), ".")
        },
        None => String::new(),
    }
}

/// The files: up to three by name, and the number of the others.
pub open spec fn files_part(files: Seq<Seq<char>>) -> Seq<char> {
    if files.len() == 0 {
        Seq::empty()
    } else if files.len() <= 3 {
        " on "@ + text::joined(files, ", "@)
    } else {
        " on "@ + text::joined(files.take(3), ", "@) + " +"@ + text::decimal(
            (files.len() - 3) as nat,
        ) + " more"@
    }
}

fn write_files_part(files: &Vec<String>) -> (r: String)
    ensures
        r@ == files_part(text::views(files@)),
{
    assert(text::views(files@).len() == files@.len());
    if files.len() == 0 {
        return String::new();
    }
    if files.len() <= 3 {
        return text::join2(" on ", text::join(files, ", ").as_str());
    }
    let mut head: Vec<String> = Vec::new();
    let mut i: usize = 0;
    while i < 3
        invariant
            i <= 3 < files@.len(),
            head@.len() == i,
            forall|k: int| 0 <= k < i ==> (#[trigger] head@[k])@ == files@[k]@,
        decreases 3 - i,
    {
        head.push(files[i].clone());
        i = i + 1;
    }
    assert(text::views(head@) =~= text::views(files@).take(3));
    let mut s = text::join3(" on ", text::join(&head, ", ").as_str(), " +");
    text::push_str(&mut s, text::decimal_string((files.len() - 3) as u64).as_str());
    text::push_str(&mut s, " more");
    s
}

/// What was done in the stretch that was dropped, where that is known.
pub open spec fn lost_part(t: Option<CompactionLostWork>) -> Seq<char> {
    match t {
        Some(w) => " Compacted window: "@ + text::decimal(w.edit_count as nat) + " edit(s), "@
            + text::decimal(w.bash_count as nat) + " bash, "@ + text::decimal(w.read_count as nat)
            + " read(s)"@ + files_part(text::views(w.files@)) + "."@,
        None => Seq::empty(),
    }
}

fn write_lost_part(t: &Option<CompactionLostWork>) -> (r: String)
    ensures
        r@ == lost_part(*t),
{
    match t {
        Some(w) => {
            let mut s = " Compacted window: ".to_owned();
            text::push_str(&mut s, text::decimal_string(w.edit_count).as_str());
            text::push_str(&mut s, " edit(s), ");
            text::push_str(&mut s, text::decimal_string(w.bash_count).as_str());
            text::push_str(&mut s, " bash, ");
            text::push_str(&mut s, text::decimal_string(w.read_count).as_str());
            text::push_str(&mut s, " read(s)");
            text::push_str(&mut s, write_files_part(&w.files).as_str());
            text::push_str(&mut s, ".");
            s
        },
        None => String::new(),
    }
}

/// What the two edits replaced, where that is known.
pub open spec fn preview_part(t: Option<EditRevertSamplePreview>) -> Seq<char> {
    match t {
        Some(p) => " First edit: '"@ + p.first_edit.old@ + "' → '"@ + p.first_edit.new@
            + "'. Revert: '"@ + p.revert.old@ + "' → '"@ + p.revert.new@ + "'."@,
        None => Seq::empty(),
    }
}

fn write_preview_part(t: &Option<EditRevertSamplePreview>) -> (r: String)
    ensures
        r@ == preview_part(*t),
{
    match t {
        Some(p) => {
            let mut s = " First edit: '".to_owned();
            text::push_str(&mut s, p.first_edit.old.as_str());
            text::push_str(&mut s, "' → '");
            text::push_str(&mut s, p.first_edit.new.as_str());
            text::push_str(&mut s, "'. Revert: '");
            text::push_str(&mut s, p.revert.old.as_str());
            text::push_str(&mut s, "' → '");
            text::push_str(&mut s, p.revert.new.as_str());
            text::push_str(&mut s, "'.");
            s
        },
        None => String::new(),
    }
}

/// An `s` for more or fewer than one.
pub open spec fn plural_part(n: u64) -> Seq<char> {
    if n == 1 {
        ""@
    } else {
        "s"@
    }
}

fn write_plural_part(n: &u64) -> (r: String)
    ensures
        r@ == plural_part(*n),
{
    if *n == 1 {
        "".to_owned()
    } else {
        "s".to_owned()
    }
}

/// Edits to a read: as given, or endless where nothing was read.
pub open spec fn ratio_part(reads: u64, finite: Seq<char>) -> Seq<char> {
    if reads == 0 {
        "∞"@
    } else {
        finite
    }
}

fn write_ratio_part(reads: u64, finite: &str) -> (r: String)
    ensures
        r@ == ratio_part(reads, finite@),
{
    if reads == 0 {
        "∞".to_owned()
    } else {
        finite.to_owned()
    }
}

/// What rides along in all turns, capped at the largest number.
pub open spec fn riding_tokens(tokens: u128, turns: u64) -> u64 {
    if tokens * turns > u64::MAX {
        u64::MAX
    } else {
        (tokens * turns) as u64
    }
}

fn multiply_capped(tokens: u128, turns: u64) -> (r: u64)
    ensures
        r == riding_tokens(tokens, turns),
{
    if turns == 0 {
        return 0;
    }
    let cap: u128 = u64::MAX as u128;
    let t: u128 = turns as u128;
    let most: u128 = cap / t;
    if tokens > most {
        assert(tokens * turns > u64::MAX) by (nonlinear_arith)
            requires
                t == turns,
                t > 0,
                cap == u64::MAX,
                most == cap / t,
                tokens > most,
        ;
        u64::MAX
    } else {
        assert(tokens * turns <= u64::MAX) by (nonlinear_arith)
            requires
                t == turns,
                t > 0,
                cap == u64::MAX,
                most == cap / t,
                tokens <= most,
        ;
        assert(tokens <= u64::MAX) by (nonlinear_arith)
            requires
                tokens * turns <= u64::MAX,
                turns > 0,
        ;
        (tokens * t) as u64
    }
}

/// A retry loop in words.
pub open spec fn retry_loop_finding(x: RetryLoop, a: AmountView) -> FindingView {
    let title = "Retry loop: "@ + x.tool@ + target_part(x.target) + " failed "@ + text::decimal(x.attempts as nat) + "× in a row"@ + error_part(x.error_signature);
    let detail = "Turns "@ + text::decimal(x.start_turn_index as nat) + "-"@ + text::decimal(x.end_turn_index as nat) + " are "@ + text::decimal(x.attempts as nat) + " consecutive errored "@ + x.tool@ + " calls with the same arguments. Cumulative turn cost "@ + a.text + " — the agent kept retrying without changing inputs."@;
    FindingView {
        event_source: x.event_source,
        ..cost_finding("retry-loop"@, x.session_id@, a, title, detail)
    }
}

/// A retry loop in words.
pub fn retry_loop_to_finding(x: &RetryLoop, a: &Amount) -> (r: WasteFinding)
    ensures
        r@ == retry_loop_finding(*x, a@),
{
    let mut title = "Retry loop: ".to_owned();
    text::push_str(&mut title, x.tool.as_str());
    text::push_str(&mut title, write_target_part(&x.target).as_str());
    text::push_str(&mut title, " failed ");
    text::push_str(&mut title, text::decimal_string(x.attempts).as_str());
    text::push_str(&mut title, "× in a row");
    text::push_str(&mut title, write_error_part(&x.error_signature).as_str());
    let mut detail = "Turns ".to_owned();
    text::push_str(&mut detail, text::decimal_string(x.start_turn_index).as_str());
    text::push_str(&mut detail, "-");
    text::push_str(&mut detail, text::decimal_string(x.end_turn_index).as_str());
    text::push_str(&mut detail, " are ");
    text::push_str(&mut detail, text::decimal_string(x.attempts).as_str());
    text::push_str(&mut detail, " consecutive errored ");
    text::push_str(&mut detail, x.tool.as_str());
    text::push_str(&mut detail, " calls with the same arguments. Cumulative turn cost ");
    text::push_str(&mut detail, a.text.as_str());
    text::push_str(&mut detail, " — the agent kept retrying without changing inputs.");
    let mut r = WasteFinding::session_cost("retry-loop", x.session_id.as_str(), a, title, detail);
    r.event_source = x.event_source;
    r
}

/// A failure run in words.
pub open spec fn failure_run_finding(x: FailureRun, a: AmountView) -> FindingView {
    let title = "Failure run: "@ + text::decimal(x.length as nat) + " consecutive failed tool calls"@;
    let detail = "Turns "@ + text::decimal(x.start_turn_index as nat) + "-"@ + text::decimal(x.end_turn_index as nat) + " failed across "@ + text::decimal(x.tools_involved@.len()) + " distinct tool(s) ("@ + text::joined(text::views(x.tools_involved@), ", "@) + "). Cumulative turn cost "@ + a.text + " — agent likely stuck without recovering or asking for help."@ + errors_part(x.error_signatures);
    FindingView {
        event_source: x.event_source,
        ..cost_finding("failure-run"@, x.session_id@, a, title, detail)
    }
}

/// A failure run in words.
pub fn failure_run_to_finding(x: &FailureRun, a: &Amount) -> (r: WasteFinding)
    ensures
        r@ == failure_run_finding(*x, a@),
{
    let mut title = "Failure run: ".to_owned();
    text::push_str(&mut title, text::decimal_string(x.length).as_str());
    text::push_str(&mut title, " consecutive failed tool calls");
    let mut detail = "Turns ".to_owned();
    text::push_str(&mut detail, text::decimal_string(x.start_turn_index).as_str());
    text::push_str(&mut detail, "-");
    text::push_str(&mut detail, text::decimal_string(x.end_turn_index).as_str());
    text::push_str(&mut detail, " failed across ");
    text::push_str(&mut detail, text::decimal_string(x.tools_involved.len() as u64).as_str());
    text::push_str(&mut detail, " distinct tool(s) (");
    text::push_str(&mut detail, text::join(&x.tools_involved, ", ").as_str());
    text::push_str(&mut detail, "). Cumulative turn cost ");
    text::push_str(&mut detail, a.text.as_str());
    text::push_str(&mut detail, " — agent likely stuck without recovering or asking for help.");
    text::push_str(&mut detail, write_errors_part(&x.error_signatures).as_str());
    let mut r = WasteFinding::session_cost("failure-run", x.session_id.as_str(), a, title, detail);
    r.event_source = x.event_source;
    r
}

/// A cancellation run in words.
pub open spec fn cancellation_run_finding(x: CancellationRun, a: AmountView) -> FindingView {
    let title = "Cancellation run: "@ + text::decimal(x.length as nat) + " cancelled tool call"@ + plural_part(x.length);
    let detail = "Turns "@ + text::decimal(x.start_turn_index as nat) + "-"@ + text::decimal(x.end_turn_index as nat) + " ended with cancelled tool/subagent status ("@ + text::joined(text::views(x.tools_involved@), ", "@) + "). Cumulative turn cost "@ + a.text + "."@;
    FindingView {
        event_source: Some(x.event_source),
        ..cost_finding("cancellation-run"@, x.session_id@, a, title, detail)
    }
}

/// A cancellation run in words.
pub fn cancellation_run_to_finding(x: &CancellationRun, a: &Amount) -> (r: WasteFinding)
    ensures
        r@ == cancellation_run_finding(*x, a@),
{
    let mut title = "Cancellation run: ".to_owned();
    text::push_str(&mut title, text::decimal_string(x.length).as_str());
    text::push_str(&mut title, " cancelled tool call");
    text::push_str(&mut title, write_plural_part(&x.length).as_str());
    let mut detail = "Turns ".to_owned();
    text::push_str(&mut detail, text::decimal_string(x.start_turn_index).as_str());
    text::push_str(&mut detail, "-");
    text::push_str(&mut detail, text::decimal_string(x.end_turn_index).as_str());
    text::push_str(&mut detail, " ended with cancelled tool/subagent status (");
    text::push_str(&mut detail, text::join(&x.tools_involved, ", ").as_str());
    text::push_str(&mut detail, "). Cumulative turn cost ");
    text::push_str(&mut detail, a.text.as_str());
    text::push_str(&mut detail, ".");
    let mut r = WasteFinding::session_cost("cancellation-run", x.session_id.as_str(), a, title, detail);
    r.event_source = Some(x.event_source);
    r
}

/// A compaction in words.
pub open spec fn compaction_loss_finding(x: CompactionLoss, a: AmountView) -> FindingView {
    let title = "Compaction lost "@ + with_commas(x.tokens_before_compact as nat) + " cached tokens"@;
    let detail = "A compaction at "@ + x.ts@ + " discarded "@ + with_commas(x.tokens_before_compact as nat) + " tokens of cache. Pre-compact cacheRead cost "@ + a.text + " — that cache won't be reused on subsequent turns."@ + lost_part(x.lost_work);
    FindingView {
        tokens_per_session: if x.tokens_before_compact > 0 {
            Some(x.tokens_before_compact)
        } else {
            None
        },
        ..cost_finding("compaction-loss"@, x.session_id@, a, title, detail)
    }
}

/// A compaction in words.
pub fn compaction_loss_to_finding(x: &CompactionLoss, a: &Amount) -> (r: WasteFinding)
    ensures
        r@ == compaction_loss_finding(*x, a@),
{
    let mut title = "Compaction lost ".to_owned();
    text::push_str(&mut title, format_with_commas(x.tokens_before_compact as u128).as_str());
    text::push_str(&mut title, " cached tokens");
    let mut detail = "A compaction at ".to_owned();
    text::push_str(&mut detail, x.ts.as_str());
    text::push_str(&mut detail, " discarded ");
    text::push_str(&mut detail, format_with_commas(x.tokens_before_compact as u128).as_str());
    text::push_str(&mut detail, " tokens of cache. Pre-compact cacheRead cost ");
    text::push_str(&mut detail, a.text.as_str());
    text::push_str(&mut detail, " — that cache won't be reused on subsequent turns.");
    text::push_str(&mut detail, write_lost_part(&x.lost_work).as_str());
    let mut r = WasteFinding::session_cost("compaction-loss", x.session_id.as_str(), a, title, detail);
    r.tokens_per_session = if x.tokens_before_compact > 0 {
        Some(x.tokens_before_compact)
    } else {
        None
    };
    r
}

/// A reverted edit in words.
pub open spec fn edit_revert_finding(x: EditRevertCycle, a: AmountView) -> FindingView {
    let title = "Edit revert on "@ + x.file_path@;
    let detail = "Turn "@ + text::decimal(x.first_edit_turn_index as nat) + " edited "@ + x.file_path@ + "; turn "@ + text::decimal(x.revert_turn_index as nat) + " restored a prior file state "@ + text::decimal(x.span_turns as nat) + " turns later. Cumulative anchor-turn cost "@ + a.text + " — the intermediate work was erased."@ + preview_part(x.sample_preview);
    FindingView {
        ..cost_finding("edit-revert"@, x.session_id@, a, title, detail)
    }
}

/// A reverted edit in words.
pub fn edit_revert_to_finding(x: &EditRevertCycle, a: &Amount) -> (r: WasteFinding)
    ensures
        r@ == edit_revert_finding(*x, a@),
{
    let mut title = "Edit revert on ".to_owned();
    text::push_str(&mut title, x.file_path.as_str());
    let mut detail = "Turn ".to_owned();
    text::push_str(&mut detail, text::decimal_string(x.first_edit_turn_index).as_str());
    text::push_str(&mut detail, " edited ");
    text::push_str(&mut detail, x.file_path.as_str());
    text::push_str(&mut detail, "; turn ");
    text::push_str(&mut detail, text::decimal_string(x.revert_turn_index).as_str());
    text::push_str(&mut detail, " restored a prior file state ");
    text::push_str(&mut detail, text::decimal_string(x.span_turns).as_str());
    text::push_str(&mut detail, " turns later. Cumulative anchor-turn cost ");
    text::push_str(&mut detail, a.text.as_str());
    text::push_str(&mut detail, " — the intermediate work was erased.");
    text::push_str(&mut detail, write_preview_part(&x.sample_preview).as_str());
    WasteFinding::session_cost("edit-revert", x.session_id.as_str(), a, title, detail)
}

/// An edit-heavy session in words. It is never worse than a warning. `ratio` is
/// the number of edits to a read, written out.
pub open spec fn edit_heavy_finding(x: EditHeavySession, source: Seq<char>, a: AmountView, ratio: Seq<char>) -> FindingView {
    let title = "Edit-heavy session: "@ + text::decimal(x.edit_count as nat) + " edits / "@ + text::decimal(x.read_count as nat) + " reads (ratio "@ + ratio_part(x.read_count, ratio) + ")"@;
    let detail = source + " session has "@ + text::decimal(x.edit_count as nat) + " edit-tool calls against only "@ + text::decimal(x.read_count as nat) + " read-tool calls (ratio "@ + ratio_part(x.read_count, ratio) + ", threshold 4×). "@ + text::decimal(x.likely_retries as nat) + " edit→bash→edit retry pattern(s) observed. Edit-bearing turn cost "@ + a.text + " — careless editing without first reading surrounding context."@;
    FindingView {
        severity: if a.severity == WasteSeverity::High {
            WasteSeverity::Warn
        } else {
            a.severity
        },
        ..cost_finding("edit-heavy"@, x.session_id@, a, title, detail)
    }
}

/// An edit-heavy session in words. It is never worse than a warning. `ratio` is
/// the number of edits to a read, written out.
pub fn edit_heavy_to_finding(x: &EditHeavySession, names: &SourceNames, a: &Amount, ratio: &str) -> (r: WasteFinding)
    ensures
        r@ == edit_heavy_finding(*x, names.of(x.source), a@, ratio@),
{
    let ratio_text = write_ratio_part(x.read_count, ratio);
    let mut title = "Edit-heavy session: ".to_owned();
    text::push_str(&mut title, text::decimal_string(x.edit_count).as_str());
    text::push_str(&mut title, " edits / ");
    text::push_str(&mut title, text::decimal_string(x.read_count).as_str());
    text::push_str(&mut title, " reads (ratio ");
    text::push_str(&mut title, ratio_text.as_str());
    text::push_str(&mut title, ")");
    let mut detail = names.name(x.source).to_owned();
    text::push_str(&mut detail, " session has ");
    text::push_str(&mut detail, text::decimal_string(x.edit_count).as_str());
    text::push_str(&mut detail, " edit-tool calls against only ");
    text::push_str(&mut detail, text::decimal_string(x.read_count).as_str());
    text::push_str(&mut detail, " read-tool calls (ratio ");
    text::push_str(&mut detail, ratio_text.as_str());
    text::push_str(&mut detail, ", threshold 4×). ");
    text::push_str(&mut detail, long_decimal(x.likely_retries).as_str());
    text::push_str(&mut detail, " edit→bash→edit retry pattern(s) observed. Edit-bearing turn cost ");
    text::push_str(&mut detail, a.text.as_str());
    text::push_str(&mut detail, " — careless editing without first reading surrounding context.");
    let mut r = WasteFinding::session_cost("edit-heavy", x.session_id.as_str(), a, title, detail);
    if r.severity == WasteSeverity::High {
        r.severity = WasteSeverity::Warn;
    }
    r
}

/// A skill that was loaded again in words.
pub open spec fn skill_recall_dup_finding(x: SkillRecallDup, a: AmountView) -> FindingView {
    let title = "OpenCode skill \""@ + x.skill_name@ + "\" called "@ + text::decimal(x.call_count as nat) + "× without dedup"@;
    let detail = "OpenCode does not deduplicate skill tool results, so each of the "@ + text::decimal(x.call_count as nat) + " calls (turns "@ + text::decimal(x.first_turn_index as nat) + "-"@ + text::decimal(x.last_turn_index as nat) + ") re-injects the full SKILL.md content into context. Cumulative turn cost "@ + a.text + "."@;
    FindingView {
        ..cost_finding("skill-recall-dup"@, x.session_id@, a, title, detail)
    }
}

/// A skill that was loaded again in words.
pub fn skill_recall_dup_to_finding(x: &SkillRecallDup, a: &Amount) -> (r: WasteFinding)
    ensures
        r@ == skill_recall_dup_finding(*x, a@),
{
    let mut title = "OpenCode skill \"".to_owned();
    text::push_str(&mut title, x.skill_name.as_str());
    text::push_str(&mut title, "\" called ");
    text::push_str(&mut title, text::decimal_string(x.call_count).as_str());
    text::push_str(&mut title, "× without dedup");
    let mut detail = "OpenCode does not deduplicate skill tool results, so each of the ".to_owned();
    text::push_str(&mut detail, text::decimal_string(x.call_count).as_str());
    text::push_str(&mut detail, " calls (turns ");
    text::push_str(&mut detail, text::decimal_string(x.first_turn_index).as_str());
    text::push_str(&mut detail, "-");
    text::push_str(&mut detail, text::decimal_string(x.last_turn_index).as_str());
    text::push_str(&mut detail, ") re-injects the full SKILL.md content into context. Cumulative turn cost ");
    text::push_str(&mut detail, a.text.as_str());
    text::push_str(&mut detail, ".");
    WasteFinding::session_cost("skill-recall-dup", x.session_id.as_str(), a, title, detail)
}

/// A skill that was carried along in words.
pub open spec fn skill_pruning_protection_finding(x: SkillPruningProtection, a: AmountView) -> FindingView {
    let title = "OpenCode skill \""@ + x.skill_name@ + "\" rode in cache "@ + text::decimal(x.riding_turns as nat) + " turn(s)"@;
    let detail = "Skill tool results are listed in OpenCode's PRUNE_PROTECTED_TOOLS and never evict during compaction. Invoked at turn "@ + text::decimal(x.invoked_turn_index as nat) + "; still in cacheRead at turn "@ + text::decimal(x.last_cached_turn_index as nat) + ". Invoke + riding-turn cost "@ + a.text + "."@;
    FindingView {
        ..cost_finding("skill-pruning-protection"@, x.session_id@, a, title, detail)
    }
}

/// A skill that was carried along in words.
pub fn skill_pruning_protection_to_finding(x: &SkillPruningProtection, a: &Amount) -> (r: WasteFinding)
    ensures
        r@ == skill_pruning_protection_finding(*x, a@),
{
    let mut title = "OpenCode skill \"".to_owned();
    text::push_str(&mut title, x.skill_name.as_str());
    text::push_str(&mut title, "\" rode in cache ");
    text::push_str(&mut title, text::decimal_string(x.riding_turns).as_str());
    text::push_str(&mut title, " turn(s)");
    let mut detail = "Skill tool results are listed in OpenCode's PRUNE_PROTECTED_TOOLS and never evict during compaction. Invoked at turn ".to_owned();
    text::push_str(&mut detail, text::decimal_string(x.invoked_turn_index).as_str());
    text::push_str(&mut detail, "; still in cacheRead at turn ");
    text::push_str(&mut detail, text::decimal_string(x.last_cached_turn_index).as_str());
    text::push_str(&mut detail, ". Invoke + riding-turn cost ");
    text::push_str(&mut detail, a.text.as_str());
    text::push_str(&mut detail, ".");
    WasteFinding::session_cost("skill-pruning-protection", x.session_id.as_str(), a, title, detail)
}

/// A system prompt that was paid for in words.
pub open spec fn system_prompt_tax_finding(x: SystemPromptTax, a: AmountView) -> FindingView {
    let title = "OpenCode system prompt tax: ~"@ + with_commas(x.estimated_system_prompt_tokens as nat) + " tokens × "@ + text::decimal(x.riding_turns as nat) + " turn(s)"@;
    let detail = "First-turn cacheCreate of "@ + with_commas(x.first_turn_cache_create as nat) + " tokens minus the first user message ("@ + with_commas(x.first_user_message_tokens as nat) + ") leaves ~"@ + with_commas(x.estimated_system_prompt_tokens as nat) + " tokens of system prompt + skill catalog riding cacheRead across "@ + text::decimal(x.riding_turns as nat) + " subsequent turn(s). Total cost "@ + a.text + "."@;
    FindingView {
        tokens_per_session: Some(riding_tokens(x.estimated_system_prompt_tokens, x.riding_turns)),
        ..cost_finding("system-prompt-tax"@, x.session_id@, a, title, detail)
    }
}

/// A system prompt that was paid for in words.
pub fn system_prompt_tax_to_finding(x: &SystemPromptTax, a: &Amount) -> (r: WasteFinding)
    ensures
        r@ == system_prompt_tax_finding(*x, a@),
{
    let mut title = "OpenCode system prompt tax: ~".to_owned();
    text::push_str(&mut title, format_with_commas(x.estimated_system_prompt_tokens as u128).as_str());
    text::push_str(&mut title, " tokens × ");
    text::push_str(&mut title, text::decimal_string(x.riding_turns).as_str());
    text::push_str(&mut title, " turn(s)");
    let mut detail = "First-turn cacheCreate of ".to_owned();
    text::push_str(&mut detail, format_with_commas(x.first_turn_cache_create as u128).as_str());
    text::push_str(&mut detail, " tokens minus the first user message (");
    text::push_str(&mut detail, format_with_commas(x.first_user_message_tokens as u128).as_str());
    text::push_str(&mut detail, ") leaves ~");
    text::push_str(&mut detail, format_with_commas(x.estimated_system_prompt_tokens as u128).as_str());
    text::push_str(&mut detail, " tokens of system prompt + skill catalog riding cacheRead across ");
    text::push_str(&mut detail, text::decimal_string(x.riding_turns).as_str());
    text::push_str(&mut detail, " subsequent turn(s). Total cost ");
    text::push_str(&mut detail, a.text.as_str());
    text::push_str(&mut detail, ".");
    let mut r = WasteFinding::session_cost("system-prompt-tax", x.session_id.as_str(), a, title, detail);
    r.tokens_per_session = Some(multiply_capped(x.estimated_system_prompt_tokens, x.riding_turns));
    r
}

/// Whether finding `a` comes before finding `b`: the worse first, then the
/// dearer.
pub open spec fn finding_before(a: FindingView, b: FindingView) -> bool {
    if severity_rank(a.severity) != severity_rank(b.severity) {
        severity_rank(a.severity) < severity_rank(b.severity)
    } else {
        a.cost_key > b.cost_key
    }
}

/// [`finding_before`] as a function value.
pub open spec fn finding_order() -> spec_fn(FindingView, FindingView) -> bool {
    |a: FindingView, b: FindingView| finding_before(a, b)
}

impl Ordered for WasteFinding {
    open spec fn before(self, other: Self) -> bool {
        finding_before(self@, other@)
    }

    fn is_before(&self, other: &Self) -> (r: bool) {
        let a: u8 = severity_order(self.severity);
        let b: u8 = severity_order(other.severity);
        if a != b {
            a < b
        } else {
            self.cost_key > other.cost_key
        }
    }
}

/// The findings in order: the worse first, then the dearer, ties as they stand.
pub fn sort_findings(findings: Vec<WasteFinding>) -> (r: Vec<WasteFinding>)
    ensures
        finding_views(r@) == order::stable_sort(finding_views(findings@), finding_order()),
{
    let ghost given = findings@;
    let out = order::sort(findings);
    proof {
        let f = |x: WasteFinding| x@;
        assert(finding_views(given) =~= given.map_values(f));
        order::lemma_sort_map(given, f, order::order_of::<WasteFinding>(), finding_order());
        assert(finding_views(out@) =~= out@.map_values(f));
    }
    out
}

/// The findings come worst first.
pub proof fn lemma_sorted_findings(list: Seq<FindingView>, i: int, j: int)
    requires
        0 <= i < j < list.len(),
    ensures
        ({
            let s = order::stable_sort(list, finding_order());
            severity_rank(s[i].severity) <= severity_rank(s[j].severity)
        }),
{
    let lt = finding_order();
    assert(order::strict_weak(lt));
    order::lemma_sort_in_order(list, lt);
    order::lemma_sort_multiset(list, lt);
    let s = order::stable_sort(list, lt);
    assert(!lt(s[j], s[i]));
}

/// The amounts of the findings of each kind, in their order.
pub struct PatternAmounts {
    pub retry_loops: Vec<Amount>,
    pub failure_runs: Vec<Amount>,
    pub cancelled_runs: Vec<Amount>,
    pub compactions: Vec<Amount>,
    pub edit_reverts: Vec<Amount>,
    pub edit_heavy_sessions: Vec<Amount>,
    /// Edits to a read of each edit-heavy session, written out.
    pub edit_heavy_ratios: Vec<String>,
    pub skill_recall_dups: Vec<Amount>,
    pub skill_pruning_protection: Vec<Amount>,
    pub system_prompt_taxes: Vec<Amount>,
}

impl PatternAmounts {
    /// Whether there is an amount for each finding.
    pub open spec fn covers(self, r: PatternsResult) -> bool {
        &&& self.retry_loops@.len() == r.retry_loops@.len()
        &&& self.failure_runs@.len() == r.failure_runs@.len()
        &&& self.cancelled_runs@.len() == r.cancelled_runs@.len()
        &&& self.compactions@.len() == r.compactions@.len()
        &&& self.edit_reverts@.len() == r.edit_reverts@.len()
        &&& self.edit_heavy_sessions@.len() == r.edit_heavy_sessions@.len()
        &&& self.edit_heavy_ratios@.len() == r.edit_heavy_sessions@.len()
        &&& self.skill_recall_dups@.len() == r.skill_recall_dups@.len()
        &&& self.skill_pruning_protection@.len() == r.skill_pruning_protection@.len()
        &&& self.system_prompt_taxes@.len() == r.system_prompt_taxes@.len()
    }
}

/// Each finding of a list in words, by `f`.
pub open spec fn worded<X>(
    list: Seq<X>,
    amounts: Seq<Amount>,
    f: spec_fn(X, AmountView) -> FindingView,
) -> Seq<FindingView> {
    Seq::new(list.len(), |i: int| f(list[i], amounts[i]@))
}

/// The edit-heavy sessions in words.
pub open spec fn worded_heavy(
    list: Seq<EditHeavySession>,
    amounts: Seq<Amount>,
    ratios: Seq<String>,
    names: SourceNames,
) -> Seq<FindingView> {
    Seq::new(
        list.len(),
        |i: int|
            edit_heavy_finding(list[i], names.of(list[i].source), amounts[i]@, ratios[i]@),
    )
}

/// All findings in words, kind by kind.
pub open spec fn all_findings(
    r: PatternsResult,
    m: PatternAmounts,
    names: SourceNames,
) -> Seq<FindingView> {
    worded(r.retry_loops@, m.retry_loops@, |x: RetryLoop, a: AmountView| retry_loop_finding(x, a))
        + worded(
        r.failure_runs@,
        m.failure_runs@,
        |x: FailureRun, a: AmountView| failure_run_finding(x, a),
    ) + worded(
        r.cancelled_runs@,
        m.cancelled_runs@,
        |x: CancellationRun, a: AmountView| cancellation_run_finding(x, a),
    ) + worded(
        r.compactions@,
        m.compactions@,
        |x: CompactionLoss, a: AmountView| compaction_loss_finding(x, a),
    ) + worded(
        r.edit_reverts@,
        m.edit_reverts@,
        |x: EditRevertCycle, a: AmountView| edit_revert_finding(x, a),
    ) + worded_heavy(
        r.edit_heavy_sessions@,
        m.edit_heavy_sessions@,
        m.edit_heavy_ratios@,
        names,
    ) + worded(
        r.skill_recall_dups@,
        m.skill_recall_dups@,
        |x: SkillRecallDup, a: AmountView| skill_recall_dup_finding(x, a),
    ) + worded(
        r.skill_pruning_protection@,
        m.skill_pruning_protection@,
        |x: SkillPruningProtection, a: AmountView| skill_pruning_protection_finding(x, a),
    ) + worded(
        r.system_prompt_taxes@,
        m.system_prompt_taxes@,
        |x: SystemPromptTax, a: AmountView| system_prompt_tax_finding(x, a),
    )
}

fn add_retry_loops(out: &mut Vec<WasteFinding>, list: &Vec<RetryLoop>, amounts: &Vec<Amount>)
    requires
        list@.len() == amounts@.len(),
    ensures
        finding_views(final(out)@) == finding_views(old(out)@) + worded(
            list@,
            amounts@,
            |x: RetryLoop, a: AmountView| retry_loop_finding(x, a),
        ),
{
    let ghost all = worded(list@, amounts@, |x: RetryLoop, a: AmountView| retry_loop_finding(x, a));
    let ghost start = finding_views(out@);
    let mut i: usize = 0;
    assert(start + all.take(0) =~= start);
    while i < list.len()
        invariant
            i <= list@.len(),
            list@.len() == amounts@.len(),
            all == worded(
                list@,
                amounts@,
                |x: RetryLoop, a: AmountView| retry_loop_finding(x, a),
            ),
            finding_views(out@) == start + all.take(i as int),
        decreases list@.len() - i,
    {
        let ghost before = finding_views(out@);
        let f = retry_loop_to_finding(&list[i], &amounts[i]);
        out.push(f);
        assert(finding_views(out@) =~= before.push(f@));
        assert(start + all.take(i + 1) =~= (start + all.take(i as int)).push(all[i as int]));
        i = i + 1;
    }
    assert(all.take(i as int) =~= all);
}

fn add_failure_runs(out: &mut Vec<WasteFinding>, list: &Vec<FailureRun>, amounts: &Vec<Amount>)
    requires
        list@.len() == amounts@.len(),
    ensures
        finding_views(final(out)@) == finding_views(old(out)@) + worded(
            list@,
            amounts@,
            |x: FailureRun, a: AmountView| failure_run_finding(x, a),
        ),
{
    let ghost all = worded(list@, amounts@, |x: FailureRun, a: AmountView| failure_run_finding(x, a));
    let ghost start = finding_views(out@);
    let mut i: usize = 0;
    assert(start + all.take(0) =~= start);
    while i < list.len()
        invariant
            i <= list@.len(),
            list@.len() == amounts@.len(),
            all == worded(
                list@,
                amounts@,
                |x: FailureRun, a: AmountView| failure_run_finding(x, a),
            ),
            finding_views(out@) == start + all.take(i as int),
        decreases list@.len() - i,
    {
        let ghost before = finding_views(out@);
        let f = failure_run_to_finding(&list[i], &amounts[i]);
        out.push(f);
        assert(finding_views(out@) =~= before.push(f@));
        assert(start + all.take(i + 1) =~= (start + all.take(i as int)).push(all[i as int]));
        i = i + 1;
    }
    assert(all.take(i as int) =~= all);
}

fn add_cancelled_runs(out: &mut Vec<WasteFinding>, list: &Vec<CancellationRun>, amounts: &Vec<Amount>)
    requires
        list@.len() == amounts@.len(),
    ensures
        finding_views(final(out)@) == finding_views(old(out)@) + worded(
            list@,
            amounts@,
            |x: CancellationRun, a: AmountView| cancellation_run_finding(x, a),
        ),
{
    let ghost all = worded(list@, amounts@, |x: CancellationRun, a: AmountView| cancellation_run_finding(x, a));
    let ghost start = finding_views(out@);
    let mut i: usize = 0;
    assert(start + all.take(0) =~= start);
    while i < list.len()
        invariant
            i <= list@.len(),
            list@.len() == amounts@.len(),
            all == worded(
                list@,
                amounts@,
                |x: CancellationRun, a: AmountView| cancellation_run_finding(x, a),
            ),
            finding_views(out@) == start + all.take(i as int),
        decreases list@.len() - i,
    {
        let ghost before = finding_views(out@);
        let f = cancellation_run_to_finding(&list[i], &amounts[i]);
        out.push(f);
        assert(finding_views(out@) =~= before.push(f@));
        assert(start + all.take(i + 1) =~= (start + all.take(i as int)).push(all[i as int]));
        i = i + 1;
    }
    assert(all.take(i as int) =~= all);
}

fn add_compactions(out: &mut Vec<WasteFinding>, list: &Vec<CompactionLoss>, amounts: &Vec<Amount>)
    requires
        list@.len() == amounts@.len(),
    ensures
        finding_views(final(out)@) == finding_views(old(out)@) + worded(
            list@,
            amounts@,
            |x: CompactionLoss, a: AmountView| compaction_loss_finding(x, a),
        ),
{
    let ghost all = worded(list@, amounts@, |x: CompactionLoss, a: AmountView| compaction_loss_finding(x, a));
    let ghost start = finding_views(out@);
    let mut i: usize = 0;
    assert(start + all.take(0) =~= start);
    while i < list.len()
        invariant
            i <= list@.len(),
            list@.len() == amounts@.len(),
            all == worded(
                list@,
                amounts@,
                |x: CompactionLoss, a: AmountView| compaction_loss_finding(x, a),
            ),
            finding_views(out@) == start + all.take(i as int),
        decreases list@.len() - i,
    {
        let ghost before = finding_views(out@);
        let f = compaction_loss_to_finding(&list[i], &amounts[i]);
        out.push(f);
        assert(finding_views(out@) =~= before.push(f@));
        assert(start + all.take(i + 1) =~= (start + all.take(i as int)).push(all[i as int]));
        i = i + 1;
    }
    assert(all.take(i as int) =~= all);
}

fn add_edit_reverts(out: &mut Vec<WasteFinding>, list: &Vec<EditRevertCycle>, amounts: &Vec<Amount>)
    requires
        list@.len() == amounts@.len(),
    ensures
        finding_views(final(out)@) == finding_views(old(out)@) + worded(
            list@,
            amounts@,
            |x: EditRevertCycle, a: AmountView| edit_revert_finding(x, a),
        ),
{
    let ghost all = worded(list@, amounts@, |x: EditRevertCycle, a: AmountView| edit_revert_finding(x, a));
    let ghost start = finding_views(out@);
    let mut i: usize = 0;
    assert(start + all.take(0) =~= start);
    while i < list.len()
        invariant
            i <= list@.len(),
            list@.len() == amounts@.len(),
            all == worded(
                list@,
                amounts@,
                |x: EditRevertCycle, a: AmountView| edit_revert_finding(x, a),
            ),
            finding_views(out@) == start + all.take(i as int),
        decreases list@.len() - i,
    {
        let ghost before = finding_views(out@);
        let f = edit_revert_to_finding(&list[i], &amounts[i]);
        out.push(f);
        assert(finding_views(out@) =~= before.push(f@));
        assert(start + all.take(i + 1) =~= (start + all.take(i as int)).push(all[i as int]));
        i = i + 1;
    }
    assert(all.take(i as int) =~= all);
}

fn add_skill_recall_dups(out: &mut Vec<WasteFinding>, list: &Vec<SkillRecallDup>, amounts: &Vec<Amount>)
    requires
        list@.len() == amounts@.len(),
    ensures
        finding_views(final(out)@) == finding_views(old(out)@) + worded(
            list@,
            amounts@,
            |x: SkillRecallDup, a: AmountView| skill_recall_dup_finding(x, a),
        ),
{
    let ghost all = worded(list@, amounts@, |x: SkillRecallDup, a: AmountView| skill_recall_dup_finding(x, a));
    let ghost start = finding_views(out@);
    let mut i: usize = 0;
    assert(start + all.take(0) =~= start);
    while i < list.len()
        invariant
            i <= list@.len(),
            list@.len() == amounts@.len(),
            all == worded(
                list@,
                amounts@,
                |x: SkillRecallDup, a: AmountView| skill_recall_dup_finding(x, a),
            ),
            finding_views(out@) == start + all.take(i as int),
        decreases list@.len() - i,
    {
        let ghost before = finding_views(out@);
        let f = skill_recall_dup_to_finding(&list[i], &amounts[i]);
        out.push(f);
        assert(finding_views(out@) =~= before.push(f@));
        assert(start + all.take(i + 1) =~= (start + all.take(i as int)).push(all[i as int]));
        i = i + 1;
    }
    assert(all.take(i as int) =~= all);
}

fn add_skill_pruning_protection(out: &mut Vec<WasteFinding>, list: &Vec<SkillPruningProtection>, amounts: &Vec<Amount>)
    requires
        list@.len() == amounts@.len(),
    ensures
        finding_views(final(out)@) == finding_views(old(out)@) + worded(
            list@,
            amounts@,
            |x: SkillPruningProtection, a: AmountView| skill_pruning_protection_finding(x, a),
        ),
{
    let ghost all = worded(list@, amounts@, |x: SkillPruningProtection, a: AmountView| skill_pruning_protection_finding(x, a));
    let ghost start = finding_views(out@);
    let mut i: usize = 0;
    assert(start + all.take(0) =~= start);
    while i < list.len()
        invariant
            i <= list@.len(),
            list@.len() == amounts@.len(),
            all == worded(
                list@,
                amounts@,
                |x: SkillPruningProtection, a: AmountView| skill_pruning_protection_finding(x, a),
            ),
            finding_views(out@) == start + all.take(i as int),
        decreases list@.len() - i,
    {
        let ghost before = finding_views(out@);
        let f = skill_pruning_protection_to_finding(&list[i], &amounts[i]);
        out.push(f);
        assert(finding_views(out@) =~= before.push(f@));
        assert(start + all.take(i + 1) =~= (start + all.take(i as int)).push(all[i as int]));
        i = i + 1;
    }
    assert(all.take(i as int) =~= all);
}

fn add_system_prompt_taxes(out: &mut Vec<WasteFinding>, list: &Vec<SystemPromptTax>, amounts: &Vec<Amount>)
    requires
        list@.len() == amounts@.len(),
    ensures
        finding_views(final(out)@) == finding_views(old(out)@) + worded(
            list@,
            amounts@,
            |x: SystemPromptTax, a: AmountView| system_prompt_tax_finding(x, a),
        ),
{
    let ghost all = worded(list@, amounts@, |x: SystemPromptTax, a: AmountView| system_prompt_tax_finding(x, a));
    let ghost start = finding_views(out@);
    let mut i: usize = 0;
    assert(start + all.take(0) =~= start);
    while i < list.len()
        invariant
            i <= list@.len(),
            list@.len() == amounts@.len(),
            all == worded(
                list@,
                amounts@,
                |x: SystemPromptTax, a: AmountView| system_prompt_tax_finding(x, a),
            ),
            finding_views(out@) == start + all.take(i as int),
        decreases list@.len() - i,
    {
        let ghost before = finding_views(out@);
        let f = system_prompt_tax_to_finding(&list[i], &amounts[i]);
        out.push(f);
        assert(finding_views(out@) =~= before.push(f@));
        assert(start + all.take(i + 1) =~= (start + all.take(i as int)).push(all[i as int]));
        i = i + 1;
    }
    assert(all.take(i as int) =~= all);
}

fn add_edit_heavy_sessions(
    out: &mut Vec<WasteFinding>,
    list: &Vec<EditHeavySession>,
    amounts: &Vec<Amount>,
    ratios: &Vec<String>,
    names: &SourceNames,
)
    requires
        list@.len() == amounts@.len(),
        list@.len() == ratios@.len(),
    ensures
        finding_views(final(out)@) == finding_views(old(out)@) + worded_heavy(
            list@,
            amounts@,
            ratios@,
            *names,
        ),
{
    let ghost all = worded_heavy(list@, amounts@, ratios@, *names);
    let ghost start = finding_views(out@);
    let mut i: usize = 0;
    assert(start + all.take(0) =~= start);
    while i < list.len()
        invariant
            i <= list@.len(),
            list@.len() == amounts@.len(),
            list@.len() == ratios@.len(),
            all == worded_heavy(list@, amounts@, ratios@, *names),
            finding_views(out@) == start + all.take(i as int),
        decreases list@.len() - i,
    {
        let ghost before = finding_views(out@);
        let f = edit_heavy_to_finding(&list[i], names, &amounts[i], ratios[i].as_str());
        out.push(f);
        assert(finding_views(out@) =~= before.push(f@));
        assert(start + all.take(i + 1) =~= (start + all.take(i as int)).push(all[i as int]));
        i = i + 1;
    }
    assert(all.take(i as int) =~= all);
}

/// All findings in words, the worst first.
pub fn findings_from_patterns(
    r: &PatternsResult,
    amounts: &PatternAmounts,
    names: &SourceNames,
) -> (f: Vec<WasteFinding>)
    requires
        amounts.covers(*r),
    ensures
        finding_views(f@) == order::stable_sort(all_findings(*r, *amounts, *names), finding_order()),
{
    let mut out: Vec<WasteFinding> = Vec::new();
    assert(finding_views(out@) =~= Seq::<FindingView>::empty());
    add_retry_loops(&mut out, &r.retry_loops, &amounts.retry_loops);
    assert(finding_views(out@) =~= worded(
        r.retry_loops@,
        amounts.retry_loops@,
        |x: RetryLoop, a: AmountView| retry_loop_finding(x, a),
    ));
    add_failure_runs(&mut out, &r.failure_runs, &amounts.failure_runs);
    add_cancelled_runs(&mut out, &r.cancelled_runs, &amounts.cancelled_runs);
    add_compactions(&mut out, &r.compactions, &amounts.compactions);
    add_edit_reverts(&mut out, &r.edit_reverts, &amounts.edit_reverts);
    add_edit_heavy_sessions(
        &mut out,
        &r.edit_heavy_sessions,
        &amounts.edit_heavy_sessions,
        &amounts.edit_heavy_ratios,
        names,
    );
    add_skill_recall_dups(&mut out, &r.skill_recall_dups, &amounts.skill_recall_dups);
    add_skill_pruning_protection(
        &mut out,
        &r.skill_pruning_protection,
        &amounts.skill_pruning_protection,
    );
    add_system_prompt_taxes(&mut out, &r.system_prompt_taxes, &amounts.system_prompt_taxes);
    sort_findings(out)
}

} // verus!
