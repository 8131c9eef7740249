//! What the agent asks of a model provider, and what it gets back.
use vstd::prelude::*;

use crate::json::Json;
use crate::json;

verus! {

/// What a model can do.
#[derive(Debug, Clone, Copy, PartialEq, Eq, Structural)]
pub struct ModelCapabilities {
    /// Tokens of context, and of output at most.
    pub context: u64,
    pub max_output: u64,
    pub tools: bool,
    pub parallel_tools: bool,
    pub thinking: bool,
    pub vision: bool,
    pub json_schema: bool,
    pub streaming: bool,
    pub embeddings: bool,
    pub reasoning: bool,
}

impl Default for ModelCapabilities {
    /// A model of which nothing is known.
    fn default() -> (r: Self)
        ensures
            r == (ModelCapabilities {
                context: 0,
                max_output: 0,
                tools: false,
                parallel_tools: false,
                thinking: false,
                vision: false,
                json_schema: false,
                streaming: false,
                embeddings: false,
                reasoning: false,
            }),
    {
        ModelCapabilities {
            context: 0,
            max_output: 0,
            tools: false,
            parallel_tools: false,
            thinking: false,
            vision: false,
            json_schema: false,
            streaming: false,
            embeddings: false,
            reasoning: false,
        }
    }
}

/// Who speaks.
#[derive(Debug, Clone, Copy, PartialEq, Eq, Structural)]
pub enum Role {
    User,
    Assistant,
    System,
}

/// What a part of a message is.
#[derive(Debug, Clone, PartialEq, Eq)]
pub enum ContentKind {
    Text { text: String },
    Reasoning { text: String },
    Image { url: String },
    ToolCall { id: String, name: String, input: Json },
    ToolResult { content: String, is_error: bool },
}

/// A part of a message. A result names the call that it answers.
#[derive(Debug, Clone, PartialEq, Eq)]
pub struct ContentPart {
    pub kind: ContentKind,
    pub tool_call_id: Option<String>,
}

impl ContentPart {
    pub fn text(text: &str) -> (r: Self)
        ensures
            r.kind matches ContentKind::Text { text: t } && t@ == text@,
            r.tool_call_id is None,
    {
        ContentPart { kind: ContentKind::Text { text: text.to_owned() }, tool_call_id: None }
    }

    pub fn tool_call(id: &str, name: &str, input: Json) -> (r: Self)
        ensures
            r.kind matches ContentKind::ToolCall { id: i, name: n, input: a } && i@ == id@ && n@
                == name@ && a@ == input@,
            r.tool_call_id matches Some(i) && i@ == id@,
    {
        ContentPart {
            kind: ContentKind::ToolCall { id: id.to_owned(), name: name.to_owned(), input },
            tool_call_id: Some(id.to_owned()),
        }
    }

    pub fn tool_result(content: &str, is_error: bool, id: &str) -> (r: Self)
        ensures
            r.kind matches ContentKind::ToolResult { content: c, is_error: e } && c@ == content@
                && e == is_error,
            r.tool_call_id matches Some(i) && i@ == id@,
    {
        ContentPart {
            kind: ContentKind::ToolResult { content: content.to_owned(), is_error },
            tool_call_id: Some(id.to_owned()),
        }
    }
}

/// A message.
#[derive(Debug, Clone, PartialEq, Eq)]
pub struct RequestMessage {
    pub role: Role,
    pub content: Vec<ContentPart>,
}

/// A tool that the model may call.
#[derive(Debug, Clone, PartialEq, Eq)]
pub struct ToolSpec {
    pub name: String,
    pub description: String,
    pub input_schema: Json,
}

/// A request to a model.
#[derive(Debug, Clone, PartialEq, Eq)]
pub struct GenericAgentRequest {
    pub model: String,
    pub system: String,
    pub messages: Vec<RequestMessage>,
    pub tools: Vec<ToolSpec>,
    pub max_output: Option<u64>,
}

/// A piece of the answer.
#[derive(Debug, Clone, PartialEq, Eq)]
pub enum ProviderChunk {
    Text { text: String },
    ToolCall { id: String, name: String, input: Json, complete: bool },
    Usage { tokens_in: u64, tokens_out: u64 },
    Done,
}

/// A [`ProviderChunk`] by its contents.
pub enum ChunkView {
    Text(Seq<char>),
    ToolCall { id: Seq<char>, name: Seq<char>, input: json::JsonView, complete: bool },
    Usage { tokens_in: u64, tokens_out: u64 },
    Done,
}

impl View for ProviderChunk {
    type V = ChunkView;

    open spec fn view(&self) -> ChunkView {
        match self {
            ProviderChunk::Text { text } => ChunkView::Text(text@),
            ProviderChunk::ToolCall { id, name, input, complete } => ChunkView::ToolCall {
                id: id@,
                name: name@,
                input: input@,
                complete: *complete,
            },
            ProviderChunk::Usage { tokens_in, tokens_out } => ChunkView::Usage {
                tokens_in: *tokens_in,
                tokens_out: *tokens_out,
            },
            ProviderChunk::Done => ChunkView::Done,
        }
    }
}

/// Why a provider failed.
#[derive(Debug, Clone, Copy, PartialEq, Eq, Structural)]
pub enum ProviderErrorKind {
    Auth,
    RateLimited,
    Timeout,
    Server,
    BadRequest,
    Network,
    Malformed,
}

/// A failure of a provider, with the code of the transport where there is one.
#[derive(Debug, Clone, PartialEq, Eq)]
pub struct ProviderError {
    pub kind: ProviderErrorKind,
    pub code: Option<String>,
    pub message: String,
}

/// A [`ProviderError`] by its contents.
pub struct ProviderFault {
    pub kind: ProviderErrorKind,
    pub code: Option<Seq<char>>,
    pub message: Seq<char>,
}

impl View for ProviderError {
    type V = ProviderFault;

    open spec fn view(&self) -> ProviderFault {
        ProviderFault {
            kind: self.kind,
            code: match self.code {
                Some(c) => Some(c@),
                None => None,
            },
            message: self.message@,
        }
    }
}

impl ProviderError {
    pub fn new(kind: ProviderErrorKind, message: String) -> (r: Self)
        ensures
            r@ == (ProviderFault { kind, code: None, message: message@ }),
    {
        ProviderError { kind, code: None, message }
    }

    pub fn with_code(kind: ProviderErrorKind, code: String, message: String) -> (r: Self)
        ensures
            r@ == (ProviderFault { kind, code: Some(code@), message: message@ }),
    {
        ProviderError { kind, code: Some(code), message }
    }
}

} // verus!
