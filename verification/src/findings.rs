//! What the pattern detectors find.

use crate::records::{SourceKind, ToolResultEventSource};
use vstd::prelude::*;

verus! {

/// What reported the tool results of a streak.
#[derive(Debug, Clone, Copy, PartialEq, Eq, Structural, Hash)]
pub enum PatternEventSource {
    ToolResult,
    SubagentNotification,
    QueueEvent,
    ProgressEvent,
    FunctionCallOutput,
    /// More than one of the above.
    Mixed,
}

impl PatternEventSource {
    /// The source of a single report.
    pub open spec fn of(src: ToolResultEventSource) -> PatternEventSource {
        match src {
            ToolResultEventSource::ToolResult => PatternEventSource::ToolResult,
            ToolResultEventSource::SubagentNotification => PatternEventSource::SubagentNotification,
            ToolResultEventSource::QueueEvent => PatternEventSource::QueueEvent,
            ToolResultEventSource::ProgressEvent => PatternEventSource::ProgressEvent,
            ToolResultEventSource::FunctionCallOutput => PatternEventSource::FunctionCallOutput,
        }
    }
}

impl From<ToolResultEventSource> for PatternEventSource {
    fn from(src: ToolResultEventSource) -> (r: PatternEventSource) {
        match src {
            ToolResultEventSource::ToolResult => PatternEventSource::ToolResult,
            ToolResultEventSource::SubagentNotification => PatternEventSource::SubagentNotification,
            ToolResultEventSource::QueueEvent => PatternEventSource::QueueEvent,
            ToolResultEventSource::ProgressEvent => PatternEventSource::ProgressEvent,
            ToolResultEventSource::FunctionCallOutput => PatternEventSource::FunctionCallOutput,
        }
    }
}

impl vstd::std_specs::convert::FromSpecImpl<ToolResultEventSource> for PatternEventSource {
    open spec fn obeys_from_spec() -> bool {
        true
    }

    open spec fn from_spec(src: ToolResultEventSource) -> PatternEventSource {
        PatternEventSource::of(src)
    }
}

/// The same call failing again and again.
#[derive(Debug, Clone, PartialEq)]
pub struct RetryLoop {
    pub session_id: String,
    pub tool: String,
    pub target: Option<String>,
    pub args_hash: String,
    pub attempts: u64,
    pub start_turn_index: u64,
    pub end_turn_index: u64,
    /// The positions of the turns whose cost this is.
    pub cost_turns: Vec<usize>,
    pub error_signature: Option<String>,
    pub event_source: Option<PatternEventSource>,
}

/// The first line of an error, with the tool that it came from.
#[derive(Debug, Clone, PartialEq)]
pub struct FailureRunErrorSignature {
    pub tool: String,
    pub first_line: String,
}

/// Different calls failing in a row.
#[derive(Debug, Clone, PartialEq)]
pub struct FailureRun {
    pub session_id: String,
    pub length: u64,
    pub start_turn_index: u64,
    pub end_turn_index: u64,
    pub tools_involved: Vec<String>,
    /// The positions of the turns whose cost this is.
    pub cost_turns: Vec<usize>,
    pub error_signatures: Option<Vec<FailureRunErrorSignature>>,
    pub event_source: Option<PatternEventSource>,
}

/// Calls cancelled in a row.
#[derive(Debug, Clone, PartialEq)]
pub struct CancellationRun {
    pub session_id: String,
    pub length: u64,
    pub start_turn_index: u64,
    pub end_turn_index: u64,
    pub tools_involved: Vec<String>,
    /// The positions of the turns whose cost this is.
    pub cost_turns: Vec<usize>,
    pub event_source: PatternEventSource,
}

/// What was done in the stretch that a compaction dropped.
#[derive(Debug, Clone, PartialEq)]
pub struct CompactionLostWork {
    pub files: Vec<String>,
    pub bash_count: u64,
    pub edit_count: u64,
    pub read_count: u64,
}

/// A compaction with what it dropped.
#[derive(Debug, Clone, PartialEq)]
pub struct CompactionLoss {
    pub session_id: String,
    pub ts: String,
    pub preceding_message_id: Option<String>,
    pub tokens_before_compact: u64,
    /// The position of the turn whose model prices the dropped cache.
    pub priced_by: Option<usize>,
    pub lost_work: Option<CompactionLostWork>,
}

/// The start of what an edit replaced, and of what it put there.
#[derive(Debug, Clone, PartialEq)]
pub struct EditPreview {
    pub old: String,
    pub new: String,
}

/// The edit that started a cycle and the one that took it back.
#[derive(Debug, Clone, PartialEq)]
pub struct EditRevertSamplePreview {
    pub first_edit: EditPreview,
    pub revert: EditPreview,
}

/// An edit that put a file back to where it had been.
#[derive(Debug, Clone, PartialEq)]
pub struct EditRevertCycle {
    pub session_id: String,
    pub file_path: String,
    pub first_edit_turn_index: u64,
    pub revert_turn_index: u64,
    pub span_turns: u64,
    /// The positions of the turns whose cost this is.
    pub cost_turns: Vec<usize>,
    pub sample_preview: Option<EditRevertSamplePreview>,
}

/// A skill that was loaded more than once.
#[derive(Debug, Clone, PartialEq)]
pub struct SkillRecallDup {
    pub session_id: String,
    pub skill_name: String,
    pub call_count: u64,
    pub first_turn_index: u64,
    pub last_turn_index: u64,
    /// The positions of the turns whose cost this is.
    pub cost_turns: Vec<usize>,
}

/// A skill that stayed in the cache of later turns.
#[derive(Debug, Clone, PartialEq)]
pub struct SkillPruningProtection {
    pub session_id: String,
    pub skill_name: String,
    pub invoked_turn_index: u64,
    pub riding_turns: u64,
    pub last_cached_turn_index: u64,
    /// The position of the turn that loaded the skill.
    pub invoked_turn: usize,
    /// The positions of the turns that it rode along in.
    pub cost_turns: Vec<usize>,
}

/// A system prompt that every later turn paid for.
#[derive(Debug, Clone, PartialEq)]
pub struct SystemPromptTax {
    pub session_id: String,
    pub first_turn_cache_create: u128,
    pub first_user_message_tokens: u128,
    pub estimated_system_prompt_tokens: u128,
    pub riding_turns: u64,
    /// The positions of the turns whose cost this is.
    pub cost_turns: Vec<usize>,
}

/// A session that edits far more than it reads.
#[derive(Debug, Clone, PartialEq)]
pub struct EditHeavySession {
    pub source: SourceKind,
    pub session_id: String,
    pub read_count: u64,
    pub edit_count: u64,
    pub likely_retries: u128,
    /// The positions of the turns whose cost this is.
    pub cost_turns: Vec<usize>,
}

} // verus!
