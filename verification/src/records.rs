//! The records that the analysis reads.

use vstd::prelude::*;

verus! {

/// The harness or API that a session was recorded from.
#[derive(Debug, Clone, Copy, PartialEq, Eq, Structural, Hash)]
pub enum SourceKind {
    ClaudeCode,
    Codex,
    Opencode,
    AnthropicApi,
    OpenaiApi,
    GeminiApi,
}

/// The names that the ledger knows the sources by.
#[derive(Debug, Clone, PartialEq)]
pub struct SourceNames {
    pub claude: String,
    pub codex: String,
    pub opencode: String,
    pub anthropic_api: String,
    pub openai_api: String,
    pub gemini_api: String,
}

impl SourceNames {
    /// The name of a source.
    pub open spec fn of(self, source: SourceKind) -> Seq<char> {
        match source {
            SourceKind::ClaudeCode => self.claude@,
            SourceKind::Codex => self.codex@,
            SourceKind::Opencode => self.opencode@,
            SourceKind::AnthropicApi => self.anthropic_api@,
            SourceKind::OpenaiApi => self.openai_api@,
            SourceKind::GeminiApi => self.gemini_api@,
        }
    }

    /// The name of a source.
    pub fn name(&self, source: SourceKind) -> (r: &str)
        ensures
            r@ == self.of(source),
    {
        match source {
            SourceKind::ClaudeCode => self.claude.as_str(),
            SourceKind::Codex => self.codex.as_str(),
            SourceKind::Opencode => self.opencode.as_str(),
            SourceKind::AnthropicApi => self.anthropic_api.as_str(),
            SourceKind::OpenaiApi => self.openai_api.as_str(),
            SourceKind::GeminiApi => self.gemini_api.as_str(),
        }
    }
}

/// Token counts of one turn.
#[derive(Debug, Clone, Copy, PartialEq, Eq, Structural)]
pub struct Usage {
    pub input: u64,
    pub output: u64,
    pub reasoning: u64,
    pub cache_read: u64,
    pub cache_create_5m: u64,
    pub cache_create_1h: u64,
}

/// One tool call that the model made.
#[derive(Debug, Clone, PartialEq)]
pub struct ToolCall {
    pub id: String,
    pub name: String,
    /// The name in the vocabulary that the harnesses share.
    pub common_name: String,
    pub target: Option<String>,
    pub args_hash: String,
    pub is_error: Option<bool>,
    pub edit_pre_hash: Option<String>,
    pub edit_post_hash: Option<String>,
    pub skill_name: Option<String>,
}

/// What is known of the subagent that a turn belongs to.
#[derive(Debug, Clone, PartialEq)]
pub struct Subagent {
    pub is_sidechain: bool,
    pub parent_tool_use_id: Option<String>,
    pub agent_id: Option<String>,
    pub parent_agent_id: Option<String>,
    pub subagent_type: Option<String>,
    pub description: Option<String>,
}

/// Which parts of a turn its source reports.
#[derive(Debug, Clone, Copy, PartialEq, Eq, Structural)]
pub struct Coverage {
    pub has_input_tokens: bool,
    pub has_output_tokens: bool,
    pub has_reasoning_tokens: bool,
    pub has_cache_read_tokens: bool,
    pub has_cache_create_tokens: bool,
    pub has_tool_calls: bool,
    pub has_tool_result_events: bool,
    pub has_session_relationships: bool,
    pub has_raw_content: bool,
}

/// How well a turn is recorded, on the whole.
#[derive(Debug, Clone, Copy, PartialEq, Eq, Structural, Hash)]
pub enum FidelityClass {
    Full,
    UsageOnly,
    AggregateOnly,
    CostOnly,
    Partial,
}

/// What a usage record stands for.
#[derive(Debug, Clone, Copy, PartialEq, Eq, Structural, Hash)]
pub enum UsageGranularity {
    PerTurn,
    PerMessage,
    PerSessionAggregate,
    CostOnly,
}

/// How well a turn is recorded.
#[derive(Debug, Clone, Copy, PartialEq, Eq, Structural)]
pub struct Fidelity {
    pub granularity: UsageGranularity,
    pub coverage: Coverage,
    pub class: FidelityClass,
}

/// One turn of a session.
#[derive(Debug, Clone, PartialEq)]
pub struct TurnRecord {
    pub source: SourceKind,
    pub session_id: String,
    pub message_id: String,
    pub turn_index: u64,
    pub ts: String,
    pub model: String,
    pub project: Option<String>,
    pub project_key: Option<String>,
    pub usage: Usage,
    pub tool_calls: Vec<ToolCall>,
    /// How often the calls of this turn edit again after a command.
    pub edit_retries: u64,
    pub subagent: Option<Subagent>,
    /// The label of the activity that the turn was classified as.
    pub activity: Option<String>,
    pub retries: Option<u64>,
    pub has_edits: Option<bool>,
    pub fidelity: Option<Fidelity>,
}

/// A point at which a session was compacted.
#[derive(Debug, Clone, PartialEq)]
pub struct CompactionEvent {
    pub session_id: String,
    pub ts: String,
    pub preceding_message_id: Option<String>,
    pub tokens_before_compact: Option<u64>,
}

/// What a content record holds.
#[derive(Debug, Clone, Copy, PartialEq, Eq, Structural, Hash)]
pub enum ContentKind {
    Text,
    Thinking,
    ToolUse,
    ToolResult,
}

/// A field of the input of a tool use; its text where the value is a string.
#[derive(Debug, Clone, PartialEq)]
pub struct InputField {
    pub name: String,
    pub text: Option<String>,
}

/// The input of a tool use.
#[derive(Debug, Clone, PartialEq)]
pub struct ContentToolUse {
    pub id: String,
    pub name: String,
    pub input: Vec<InputField>,
}

/// The result of a tool use, as text.
#[derive(Debug, Clone, PartialEq)]
pub struct ContentToolResult {
    pub tool_use_id: String,
    pub content: String,
    pub is_error: Option<bool>,
}

/// One captured piece of content.
#[derive(Debug, Clone, PartialEq)]
pub struct ContentRecord {
    pub session_id: String,
    pub message_id: String,
    pub kind: ContentKind,
    pub text: Option<String>,
    pub tool_use: Option<ContentToolUse>,
    pub tool_result: Option<ContentToolResult>,
}

/// What a block of a user turn holds.
#[derive(Debug, Clone, Copy, PartialEq, Eq, Structural, Hash)]
pub enum UserTurnBlockKind {
    Text,
    ToolResult,
    Image,
}

/// The size of one block of a user turn.
#[derive(Debug, Clone, PartialEq)]
pub struct UserTurnBlock {
    pub kind: UserTurnBlockKind,
    pub tool_use_id: Option<String>,
    pub byte_len: u64,
    pub approx_tokens: u64,
    pub is_error: Option<bool>,
}

/// One user turn.
#[derive(Debug, Clone, PartialEq)]
pub struct UserTurnRecord {
    pub session_id: String,
    pub user_uuid: String,
    pub ts: String,
    pub preceding_message_id: Option<String>,
    pub following_message_id: Option<String>,
    pub blocks: Vec<UserTurnBlock>,
}

/// How a tool call came out.
#[derive(Debug, Clone, Copy, PartialEq, Eq, Structural, Hash)]
pub enum ToolResultStatus {
    Running,
    Completed,
    Errored,
    Cancelled,
}

/// What reported how a tool call came out.
#[derive(Debug, Clone, Copy, PartialEq, Eq, Structural, Hash)]
pub enum ToolResultEventSource {
    ToolResult,
    SubagentNotification,
    QueueEvent,
    ProgressEvent,
    FunctionCallOutput,
}

/// One report on a tool call.
#[derive(Debug, Clone, PartialEq)]
pub struct ToolResultEventRecord {
    pub session_id: String,
    pub message_id: Option<String>,
    pub tool_use_id: String,
    pub call_index: Option<u64>,
    pub event_index: u64,
    pub ts: Option<String>,
    pub status: ToolResultStatus,
    pub event_source: ToolResultEventSource,
    pub output_bytes: Option<u64>,
    pub output_truncated: Option<bool>,
}

} // verus!
