//! The Gemini streaming protocol: what is sent, and how the events of the
//! answer are read.
use vstd::prelude::*;
use vstd::slice::slice_subrange;

use crate::json::{list_value, object1, object2, object3, text_value, Json};
use crate::json;
use crate::provider::{
    ContentKind, ContentPart, GenericAgentRequest, ModelCapabilities, ProviderChunk, ProviderError,
    ProviderErrorKind, RequestMessage, Role, ToolSpec,
};
use crate::provider;
use crate::text;

verus! {

/// How the provider is reached, and what is known of its models.
#[derive(Debug, Clone, PartialEq, Eq)]
pub struct GoogleConfig {
    pub base_url: String,
    pub api_key: Option<String>,
    pub model_caps: Vec<(String, ModelCapabilities)>,
}

/// What is known of a model: what was said last.
pub open spec fn known(caps: Seq<(String, ModelCapabilities)>, model: Seq<char>) -> Option<
    ModelCapabilities,
>
    decreases caps.len(),
{
    if caps.len() == 0 {
        None
    } else if caps.last().0@ == model {
        Some(caps.last().1)
    } else {
        known(caps.drop_last(), model)
    }
}

/// What a model of which nothing is known can do.
pub open spec fn default_caps() -> ModelCapabilities {
    ModelCapabilities {
        context: 1000000,
        max_output: 8192,
        tools: true,
        parallel_tools: false,
        thinking: false,
        vision: true,
        json_schema: false,
        streaming: true,
        embeddings: false,
        reasoning: false,
    }
}

impl GoogleConfig {
    pub fn new(api_key: Option<String>) -> (r: Self)
        ensures
            r.base_url@ == "https://generativelanguage.googleapis.com"@,
            r.api_key == api_key,
            r.model_caps@.len() == 0,
    {
        GoogleConfig {
            base_url: "https://generativelanguage.googleapis.com".to_owned(),
            api_key,
            model_caps: Vec::new(),
        }
    }

    /// The same with what a model can do.
    pub fn with_model(self, model: &str, caps: ModelCapabilities) -> (r: Self)
        ensures
            r.base_url == self.base_url,
            r.api_key == self.api_key,
            known(r.model_caps@, model@) == Some(caps),
            forall|other: Seq<char>|
                other != model@ ==> known(r.model_caps@, other) == known(self.model_caps@, other),
    {
        let mut list: Vec<(String, ModelCapabilities)> = self.model_caps;
        let ghost before = list@;
        list.push((model.to_owned(), caps));
        proof {
            assert(list@.drop_last() =~= before);
        }
        GoogleConfig { base_url: self.base_url, api_key: self.api_key, model_caps: list }
    }

    /// The same at another place.
    pub fn with_base(self, base_url: &str) -> (r: Self)
        ensures
            r.base_url@ == base_url@,
            r.api_key == self.api_key,
            r.model_caps == self.model_caps,
    {
        GoogleConfig {
            base_url: base_url.to_owned(),
            api_key: self.api_key,
            model_caps: self.model_caps,
        }
    }
}

// -------------------------------------------------------------- the request

/// Who speaks, in the words of the protocol.
pub open spec fn role_name(role: Role) -> Seq<char> {
    match role {
        Role::Assistant => "model"@,
        _ => "user"@,
    }
}

/// The call that a result answers.
pub open spec fn answered(id: Option<String>) -> Seq<char> {
    match id {
        Some(id) => id@,
        None => "fn"@,
    }
}

/// A part of a message as it is sent.
pub open spec fn part_json(part: ContentPart) -> json::JsonView {
    match part.kind {
        ContentKind::Text { text } => json::JsonView::Object(
            seq![("text"@, json::JsonView::Text(text@))],
        ),
        ContentKind::Reasoning { text } => json::JsonView::Object(
            seq![("text"@, json::JsonView::Text(text@))],
        ),
        ContentKind::Image { url } => json::JsonView::Object(
            seq![
                (
                    "inline_data"@,
                    json::JsonView::Object(
                        seq![
                            ("mime_type"@, json::JsonView::Text("image/png"@)),
                            ("data"@, json::JsonView::Text(url@)),
                        ],
                    ),
                ),
            ],
        ),
        ContentKind::ToolCall { id, name, input } => json::JsonView::Object(
            seq![
                (
                    "functionCall"@,
                    json::JsonView::Object(
                        seq![
                            ("name"@, json::JsonView::Text(name@)),
                            ("args"@, input@),
                            ("id"@, json::JsonView::Text(id@)),
                        ],
                    ),
                ),
            ],
        ),
        ContentKind::ToolResult { content, is_error } => json::JsonView::Object(
            seq![
                (
                    "functionResponse"@,
                    json::JsonView::Object(
                        seq![
                            (
                                "name"@,
                                json::JsonView::Text(answered(part.tool_call_id)),
                            ),
                            (
                                "response"@,
                                json::JsonView::Object(
                                    seq![
                                        ("result"@, json::JsonView::Text(content@)),
                                        ("is_error"@, json::JsonView::Bool(is_error)),
                                    ],
                                ),
                            ),
                        ],
                    ),
                ),
            ],
        ),
    }
}

/// A message as it is sent.
pub open spec fn message_json(m: RequestMessage) -> json::JsonView {
    json::JsonView::Object(
        seq![
            ("role"@, json::JsonView::Text(role_name(m.role))),
            (
                "parts"@,
                json::JsonView::List(Seq::new(m.content@.len(), |i: int| part_json(m.content@[i]))),
            ),
        ],
    )
}

/// A tool as it is sent.
pub open spec fn tool_json(t: ToolSpec) -> json::JsonView {
    json::JsonView::Object(
        seq![
            (
                "functionDeclarations"@,
                json::JsonView::List(
                    seq![
                        json::JsonView::Object(
                            seq![
                                ("name"@, json::JsonView::Text(t.name@)),
                                ("description"@, json::JsonView::Text(t.description@)),
                                ("parameters"@, t.input_schema@),
                            ],
                        ),
                    ],
                ),
            ),
        ],
    )
}

/// How the answer is to be generated.
pub open spec fn generation_json(max_output: Option<u64>) -> json::JsonView {
    let temperature = ("temperature"@, json::JsonView::Number("0.7"@));
    match max_output {
        None => json::JsonView::Object(seq![temperature]),
        Some(n) => json::JsonView::Object(
            seq![temperature, ("maxOutputTokens"@, json::JsonView::Number(text::decimal(n as nat)))],
        ),
    }
}

/// The body of a request: its messages and tools and how the answer is to be
/// generated, and nothing else of it.
pub open spec fn body_json(req: GenericAgentRequest) -> json::JsonView {
    let contents = (
        "contents"@,
        json::JsonView::List(Seq::new(req.messages@.len(), |i: int| message_json(req.messages@[i]))),
    );
    let generation = ("generationConfig"@, generation_json(req.max_output));
    if req.tools@.len() == 0 {
        json::JsonView::Object(seq![contents, generation])
    } else {
        json::JsonView::Object(
            seq![
                contents,
                generation,
                (
                    "tools"@,
                    json::JsonView::List(Seq::new(req.tools@.len(), |i: int| tool_json(req.tools@[i]))),
                ),
            ],
        )
    }
}

fn wire_part(part: &ContentPart) -> (r: Json)
    ensures
        r@ == part_json(*part),
{
    match &part.kind {
        ContentKind::Text { text } => object1("text", text_value(text.as_str())),
        ContentKind::Reasoning { text } => object1("text", text_value(text.as_str())),
        ContentKind::Image { url } => object1(
            "inline_data",
            object2(
                "mime_type",
                text_value("image/png"),
                "data",
                text_value(url.as_str()),
            ),
        ),
        ContentKind::ToolCall { id, name, input } => object1(
            "functionCall",
            object3(
                "name",
                text_value(name.as_str()),
                "args",
                input.duplicate(),
                "id",
                text_value(id.as_str()),
            ),
        ),
        ContentKind::ToolResult { content, is_error } => {
            let name: Json = match &part.tool_call_id {
                Some(id) => text_value(id.as_str()),
                None => text_value("fn"),
            };
            let flag: Json = Json::Bool(*is_error);
            proof {
                assert(name@ == json::JsonView::Text(answered(part.tool_call_id)));
                assert(flag@ == json::JsonView::Bool(*is_error));
            }
            object1(
                "functionResponse",
                object2(
                    "name",
                    name,
                    "response",
                    object2(
                        "result",
                        text_value(content.as_str()),
                        "is_error",
                        flag,
                    ),
                ),
            )
        },
    }
}

fn wire_message(m: &RequestMessage) -> (r: Json)
    ensures
        r@ == message_json(*m),
{
    let ghost goal = Seq::new(m.content@.len(), |i: int| part_json(m.content@[i]));
    let mut parts: Vec<Json> = Vec::new();
    let mut i: usize = 0;
    while i < m.content.len()
        invariant
            i <= m.content.len(),
            goal == Seq::new(m.content@.len(), |i: int| part_json(m.content@[i])),
            json::items(parts@) == goal.take(i as int),
        decreases m.content.len() - i,
    {
        let ghost before = json::items(parts@);
        let part: Json = wire_part(&m.content[i]);
        parts.push(part);
        i = i + 1;
        proof {
            assert(json::items(parts@) =~= before.push(part@));
            assert(goal.take(i as int) =~= before.push(goal[i as int - 1]));
        }
    }
    proof {
        assert(goal.take(i as int) =~= goal);
    }
    let role: &str = match m.role {
        Role::Assistant => "model",
        _ => "user",
    };
    object2("role", text_value(role), "parts", list_value(parts))
}

fn wire_tool(t: &ToolSpec) -> (r: Json)
    ensures
        r@ == tool_json(*t),
{
    let mut list: Vec<Json> = Vec::new();
    let tool: Json = object3(
        "name",
        text_value(t.name.as_str()),
        "description",
        text_value(t.description.as_str()),
        "parameters",
        t.input_schema.duplicate(),
    );
    list.push(tool);
    proof {
        assert(json::items(list@) =~= seq![tool@]);
    }
    object1("functionDeclarations", list_value(list))
}

/// The provider: what it sends for a request, and what it knows of its models.
#[derive(Debug, Clone, PartialEq, Eq)]
pub struct GoogleProvider {
    pub config: GoogleConfig,
}

impl GoogleProvider {
    pub fn build(config: GoogleConfig) -> (r: Self)
        ensures
            r.config == config,
    {
        GoogleProvider { config }
    }

    /// The name of the provider.
    pub fn id(&self) -> (r: &'static str)
        ensures
            r@ == "google"@,
    {
        "google"
    }

    /// The body of a request.
    pub fn wire_body(&self, req: &GenericAgentRequest) -> (r: Json)
        ensures
            r@ == body_json(*req),
    {
        let ghost goal = Seq::new(req.messages@.len(), |i: int| message_json(req.messages@[i]));
        let mut contents: Vec<Json> = Vec::new();
        let mut i: usize = 0;
        while i < req.messages.len()
            invariant
                i <= req.messages.len(),
                goal == Seq::new(req.messages@.len(), |i: int| message_json(req.messages@[i])),
                json::items(contents@) == goal.take(i as int),
            decreases req.messages.len() - i,
        {
            let ghost before = json::items(contents@);
            let message: Json = wire_message(&req.messages[i]);
            contents.push(message);
            i = i + 1;
            proof {
                assert(json::items(contents@) =~= before.push(message@));
                assert(goal.take(i as int) =~= before.push(goal[i as int - 1]));
            }
        }
        proof {
            assert(goal.take(i as int) =~= goal);
        }
        let temperature: Json = Json::Number("0.7".to_owned());
        let generation: Json = match req.max_output {
            None => object1("temperature", temperature),
            Some(n) => object2(
                "temperature",
                temperature,
                "maxOutputTokens",
                Json::Number(text::decimal_text(n)),
            ),
        };
        if req.tools.len() == 0 {
            return object2("contents", list_value(contents), "generationConfig", generation);
        }
        let tools: Json = wire_tools(&req.tools);
        object3(
            "contents",
            list_value(contents),
            "generationConfig",
            generation,
            "tools",
            tools,
        )
    }

    /// What a model can do.
    pub fn capabilities(&self, model: &str) -> (r: ModelCapabilities)
        ensures
            r == match known(self.config.model_caps@, model@) {
                Some(caps) => caps,
                None => default_caps(),
            },
    {
        let wanted: String = model.to_owned();
        let ghost all = self.config.model_caps@;
        let mut i: usize = self.config.model_caps.len();
        proof {
            assert(all.take(i as int) =~= all);
        }
        while i > 0
            invariant
                i <= self.config.model_caps.len(),
                all == self.config.model_caps@,
                wanted@ == model@,
                known(all, model@) == known(all.take(i as int), model@),
            decreases i,
        {
            proof {
                assert(all.take(i as int).drop_last() =~= all.take(i as int - 1));
                assert(all.take(i as int).last() == all[i as int - 1]);
            }
            i = i - 1;
            if self.config.model_caps[i].0 == wanted {
                return self.config.model_caps[i].1;
            }
        }
        ModelCapabilities {
            context: 1000000,
            max_output: 8192,
            tools: true,
            parallel_tools: false,
            thinking: false,
            vision: true,
            json_schema: false,
            streaming: true,
            embeddings: false,
            reasoning: false,
        }
    }

    /// Where a request for a model is sent.
    pub fn url(&self, model: &str) -> (r: String)
        ensures
            r@ == self.config.base_url@ + "/v1beta/models/"@ + model@
                + ":streamGenerateContent?alt=sse&key="@ + match self.config.api_key {
                Some(key) => key@,
                None => Seq::empty(),
            },
    {
        let mut out: String = text::cat4(
            self.config.base_url.as_str(),
            "/v1beta/models/",
            model,
            ":streamGenerateContent?alt=sse&key=",
        );
        let ghost before = out@;
        match &self.config.api_key {
            Some(key) => {
                out.append(key.as_str());
            },
            None => {
                proof {
                    assert(before + Seq::<char>::empty() =~= before);
                }
            },
        }
        out
    }
}

fn wire_tools(tools: &Vec<ToolSpec>) -> (r: Json)
    ensures
        r@ == json::JsonView::List(Seq::new(tools@.len(), |i: int| tool_json(tools@[i]))),
{
    let ghost goal = Seq::new(tools@.len(), |i: int| tool_json(tools@[i]));
    let mut list: Vec<Json> = Vec::new();
    let mut i: usize = 0;
    while i < tools.len()
        invariant
            i <= tools.len(),
            goal == Seq::new(tools@.len(), |i: int| tool_json(tools@[i])),
            json::items(list@) == goal.take(i as int),
        decreases tools.len() - i,
    {
        let ghost before = json::items(list@);
        let tool: Json = wire_tool(&tools[i]);
        list.push(tool);
        i = i + 1;
        proof {
            assert(json::items(list@) =~= before.push(tool@));
            assert(goal.take(i as int) =~= before.push(goal[i as int - 1]));
        }
    }
    proof {
        assert(goal.take(i as int) =~= goal);
    }
    list_value(list)
}

// --------------------------------------------------------------- the answer

/// What a part of an answer says: a text that is not empty, or the call of a
/// function with a name.
pub open spec fn part_chunk(part: json::JsonView) -> Option<provider::ChunkView> {
    let text = match part.get("text"@) {
        Some(t) => t.text(),
        None => None,
    };
    if text is Some && text->0.len() > 0 {
        Some(provider::ChunkView::Text(text->0))
    } else {
        match part.get("functionCall"@) {
            None => None,
            Some(call) => call_chunk(call),
        }
    }
}

/// A member that is a text.
pub open spec fn text_member(v: json::JsonView, key: Seq<char>) -> Option<Seq<char>> {
    match v.get(key) {
        Some(t) => t.text(),
        None => None,
    }
}

/// The call of a function with a name. A call without an id gets one from its
/// name, and one without arguments gets none.
pub open spec fn call_chunk(call: json::JsonView) -> Option<provider::ChunkView> {
    match text_member(call, "name"@) {
        None => None,
        Some(name) => if name.len() == 0 {
            None
        } else {
            Some(
                provider::ChunkView::ToolCall {
                    id: match text_member(call, "id"@) {
                        Some(id) => id,
                        None => "gemini_call_"@ + name,
                    },
                    name,
                    input: match call.get("args"@) {
                        Some(args) => args,
                        None => json::JsonView::Null,
                    },
                    complete: true,
                },
            )
        },
    }
}

/// What the first part that says something says.
pub open spec fn parts_chunk(parts: Seq<json::JsonView>) -> Option<provider::ChunkView>
    decreases parts.len(),
{
    if parts.len() == 0 {
        None
    } else {
        match part_chunk(parts[0]) {
            Some(c) => Some(c),
            None => parts_chunk(parts.skip(1)),
        }
    }
}

/// A count of tokens, or 0.
pub open spec fn token_count(usage: json::JsonView, key: Seq<char>) -> nat {
    match usage.get(key) {
        Some(v) => match json::natural(v) {
            Some(n) => n,
            None => 0,
        },
        None => 0,
    }
}

/// The tokens that an event counts, where it counts any.
pub open spec fn usage_chunk(value: json::JsonView) -> Option<provider::ChunkView> {
    match value.get("usageMetadata"@) {
        None => None,
        Some(usage) => {
            let tokens_in = token_count(usage, "promptTokenCount"@) as u64;
            let tokens_out = token_count(usage, "candidatesTokenCount"@) as u64;
            if tokens_in > 0 || tokens_out > 0 {
                Some(provider::ChunkView::Usage { tokens_in, tokens_out })
            } else {
                None
            }
        },
    }
}

/// The parts of the first candidate of an event.
pub open spec fn candidate_parts(value: json::JsonView) -> Option<Seq<json::JsonView>> {
    match value.get("candidates"@) {
        None => None,
        Some(c) => match c.list() {
            None => None,
            Some(list) => if list.len() == 0 {
                None
            } else {
                match list[0].get("content"@) {
                    None => None,
                    Some(content) => match content.get("parts"@) {
                        None => None,
                        Some(parts) => parts.list(),
                    },
                }
            },
        },
    }
}

/// What an event says: its first part that says something, else the tokens it
/// counts. An event without parts says nothing.
pub open spec fn chunk_of(value: json::JsonView) -> Option<provider::ChunkView> {
    match candidate_parts(value) {
        None => None,
        Some(parts) => match parts_chunk(parts) {
            Some(c) => Some(c),
            None => usage_chunk(value),
        },
    }
}

/// What is stated of an optional chunk.
pub open spec fn opt_chunk(c: Option<ProviderChunk>) -> Option<provider::ChunkView> {
    match c {
        Some(c) => Some(c@),
        None => None,
    }
}

fn text_of(v: &Json, key: &str) -> (r: Option<String>)
    ensures
        match text_member(v@, key@) {
            Some(s) => r matches Some(t) && t@ == s,
            None => r is None,
        },
{
    match v.get(key) {
        Some(t) => match t.as_text() {
            Some(s) => Some(s.to_owned()),
            None => None,
        },
        None => None,
    }
}

fn parse_call(call: &Json) -> (r: Option<ProviderChunk>)
    ensures
        opt_chunk(r) == call_chunk(call@),
{
    let name: String = match text_of(call, "name") {
        Some(n) => n,
        None => {
            return None;
        },
    };
    if text::chars_of(name.as_str()).len() == 0 {
        return None;
    }
    let id: String = match text_of(call, "id") {
        Some(id) => id,
        None => text::cat2("gemini_call_", name.as_str()),
    };
    let input: Json = match call.get("args") {
        Some(args) => args.duplicate(),
        None => Json::Null,
    };
    Some(ProviderChunk::ToolCall { id, name, input, complete: true })
}

fn parse_part(part: &Json) -> (r: Option<ProviderChunk>)
    ensures
        opt_chunk(r) == part_chunk(part@),
{
    if let Some(t) = text_of(part, "text") {
        if text::chars_of(t.as_str()).len() > 0 {
            return Some(ProviderChunk::Text { text: t });
        }
    }
    match part.get("functionCall") {
        None => None,
        Some(call) => parse_call(call),
    }
}

fn tokens(usage: &Json, key: &str) -> (r: u64)
    ensures
        r == token_count(usage@, key@),
{
    match usage.get(key) {
        Some(v) => match v.as_natural() {
            Some(n) => n,
            None => 0,
        },
        None => 0,
    }
}

/// Reads an event of the answer.
pub fn parse_gemini_chunk(value: &Json) -> (r: Option<ProviderChunk>)
    ensures
        opt_chunk(r) == chunk_of(value@),
{
    let candidates: &Vec<Json> = match value.get("candidates") {
        None => {
            return None;
        },
        Some(c) => match c.as_list() {
            None => {
                return None;
            },
            Some(list) => list,
        },
    };
    if candidates.len() == 0 {
        return None;
    }
    proof {
        assert(json::items(candidates@)[0] == candidates@[0]@);
    }
    let parts: &Vec<Json> = match candidates[0].get("content") {
        None => {
            return None;
        },
        Some(content) => match content.get("parts") {
            None => {
                return None;
            },
            Some(parts) => match parts.as_list() {
                None => {
                    return None;
                },
                Some(list) => list,
            },
        },
    };
    let ghost all = json::items(parts@);
    let mut i: usize = 0;
    proof {
        assert(all.skip(0) =~= all);
    }
    while i < parts.len()
        invariant
            i <= parts.len(),
            all == json::items(parts@),
            candidate_parts(value@) == Some(all),
            parts_chunk(all) == parts_chunk(all.skip(i as int)),
        decreases parts.len() - i,
    {
        let found: Option<ProviderChunk> = parse_part(&parts[i]);
        if found.is_some() {
            return found;
        }
        proof {
            assert(all.skip(i as int).skip(1) =~= all.skip(i as int + 1));
        }
        i = i + 1;
    }
    match value.get("usageMetadata") {
        None => None,
        Some(usage) => {
            let tokens_in: u64 = tokens(usage, "promptTokenCount");
            let tokens_out: u64 = tokens(usage, "candidatesTokenCount");
            if tokens_in > 0 || tokens_out > 0 {
                Some(ProviderChunk::Usage { tokens_in, tokens_out })
            } else {
                None
            }
        },
    }
}

// --------------------------------------------------------------- the stream

/// The kind of failure that a status of the transport stands for.
pub open spec fn status_kind(status: u16) -> ProviderErrorKind {
    if status == 401 || status == 403 {
        ProviderErrorKind::Auth
    } else if status == 429 {
        ProviderErrorKind::RateLimited
    } else if status == 408 || status == 504 {
        ProviderErrorKind::Timeout
    } else if 500 <= status <= 599 {
        ProviderErrorKind::Server
    } else {
        ProviderErrorKind::BadRequest
    }
}

fn kind_of_status(status: u16) -> (r: ProviderErrorKind)
    ensures
        r == status_kind(status),
{
    if status == 401 || status == 403 {
        ProviderErrorKind::Auth
    } else if status == 429 {
        ProviderErrorKind::RateLimited
    } else if status == 408 || status == 504 {
        ProviderErrorKind::Timeout
    } else if 500 <= status && status <= 599 {
        ProviderErrorKind::Server
    } else {
        ProviderErrorKind::BadRequest
    }
}

/// What a line of the answer is.
pub enum LineView {
    /// Nothing to be read.
    Skip,
    /// The end of the answer.
    End,
    /// The text of an event.
    Data(Seq<char>),
}

/// What a line of the answer is: the text behind `data:`, where there is one.
pub open spec fn line_of(line: Seq<char>) -> LineView {
    let trimmed = text::trim(line);
    let data = text::trim(trimmed.skip(5));
    if !text::starts(trimmed, "data:"@) || data.len() == 0 {
        LineView::Skip
    } else if data == "[DONE]"@ {
        LineView::End
    } else {
        LineView::Data(data)
    }
}

/// Where a stream is.
#[derive(Debug, Clone, Copy, PartialEq, Eq, Structural)]
pub enum StreamStage {
    /// Nothing was sent yet.
    Fresh,
    /// The answer is being read.
    Streaming,
    /// The stream is over.
    Done,
}

/// What came of a [`StreamStep`].
#[derive(Debug, Clone, PartialEq, Eq)]
pub enum StreamEvent {
    /// The request was answered with this status; `body` is the answer of a
    /// request that failed.
    Answered { status: u16, body: String },
    /// The request could not be sent.
    NotSent { said: String },
    /// A line of the answer.
    Line { line: String },
    /// The answer could not be read on.
    LineFailed { error: ProviderError },
    /// The answer is over.
    LinesEnded,
}

/// What is to be done next.
#[derive(Debug, Clone, PartialEq, Eq)]
pub enum StreamStep {
    /// Send the request.
    Send,
    /// Read a line of the answer.
    ReadLine,
    /// Hand out this piece, and go on with [`GeminiStream::resume`].
    Give(ProviderChunk),
    /// Hand out this error, and go on with [`GeminiStream::resume`].
    Fail(ProviderError),
    /// Nothing more comes.
    End,
}

/// A [`StreamStep`] by its contents.
pub enum StreamStepView {
    Send,
    ReadLine,
    Give(provider::ChunkView),
    Fail(provider::ProviderFault),
    End,
}

impl View for StreamStep {
    type V = StreamStepView;

    open spec fn view(&self) -> StreamStepView {
        match self {
            StreamStep::Send => StreamStepView::Send,
            StreamStep::ReadLine => StreamStepView::ReadLine,
            StreamStep::Give(c) => StreamStepView::Give(c@),
            StreamStep::Fail(e) => StreamStepView::Fail(e@),
            StreamStep::End => StreamStepView::End,
        }
    }
}

/// The event answers what the stream waits for.
pub open spec fn awaited(stage: StreamStage, event: StreamEvent) -> bool {
    match event {
        StreamEvent::Answered { .. } | StreamEvent::NotSent { .. } => stage is Fresh,
        StreamEvent::Line { .. } | StreamEvent::LineFailed { .. } | StreamEvent::LinesEnded => stage
            is Streaming,
    }
}

/// What the text of an event leads to, which reads as `value`.
pub open spec fn data_next(data: Seq<char>, value: Option<json::JsonView>) -> (
    StreamStage,
    StreamStepView,
) {
    match value {
        None => (
            StreamStage::Done,
            StreamStepView::Fail(
                provider::ProviderFault {
                    kind: ProviderErrorKind::Malformed,
                    code: None,
                    message: "bad gemini SSE: "@ + text::debug_of(data),
                },
            ),
        ),
        Some(v) => match chunk_of(v) {
            Some(c) => (StreamStage::Streaming, StreamStepView::Give(c)),
            None => (StreamStage::Streaming, StreamStepView::ReadLine),
        },
    }
}

/// The stage after an event that the stream waited for, and what is to be done
/// next.
pub open spec fn stream_next(stage: StreamStage, event: StreamEvent) -> (
    StreamStage,
    StreamStepView,
) {
    match event {
        StreamEvent::Answered { status, body } => if 200 <= status <= 299 {
            (StreamStage::Streaming, StreamStepView::ReadLine)
        } else {
            (
                StreamStage::Done,
                StreamStepView::Fail(
                    provider::ProviderFault {
                        kind: status_kind(status),
                        code: Some(text::decimal(status as nat)),
                        message: body@,
                    },
                ),
            )
        },
        StreamEvent::NotSent { said } => (
            StreamStage::Done,
            StreamStepView::Fail(
                provider::ProviderFault {
                    kind: ProviderErrorKind::Network,
                    code: None,
                    message: said@,
                },
            ),
        ),
        StreamEvent::Line { line } => match line_of(line@) {
            LineView::Skip => (StreamStage::Streaming, StreamStepView::ReadLine),
            LineView::End => (StreamStage::Done, StreamStepView::Give(provider::ChunkView::Done)),
            LineView::Data(data) => data_next(data, json::parsed(data)),
        },
        StreamEvent::LineFailed { error } => (StreamStage::Done, StreamStepView::Fail(error@)),
        StreamEvent::LinesEnded => (
            StreamStage::Done,
            StreamStepView::Give(provider::ChunkView::Done),
        ),
    }
}

/// What is to be done at a stage before anything came of it.
pub open spec fn stream_resume(stage: StreamStage) -> StreamStepView {
    match stage {
        StreamStage::Fresh => StreamStepView::Send,
        StreamStage::Streaming => StreamStepView::ReadLine,
        StreamStage::Done => StreamStepView::End,
    }
}

/// The answer to a request, piece by piece.
#[derive(Debug, Clone, PartialEq, Eq)]
pub struct GeminiStream {
    stage: StreamStage,
}

impl View for GeminiStream {
    type V = StreamStage;

    closed spec fn view(&self) -> StreamStage {
        self.stage
    }
}

impl GeminiStream {
    /// A stream whose request was not sent yet.
    pub fn new() -> (r: Self)
        ensures
            r@ == StreamStage::Fresh,
    {
        GeminiStream { stage: StreamStage::Fresh }
    }

    /// What is to be done next, before anything came of it.
    pub fn resume(&self) -> (r: StreamStep)
        ensures
            r@ == stream_resume(self@),
    {
        match &self.stage {
            StreamStage::Fresh => StreamStep::Send,
            StreamStage::Streaming => StreamStep::ReadLine,
            StreamStage::Done => StreamStep::End,
        }
    }

    fn line(&mut self, line: &str) -> (r: StreamStep)
        requires
            old(self)@ is Streaming,
        ensures
            (final(self)@, r@) == match line_of(line@) {
                LineView::Skip => (StreamStage::Streaming, StreamStepView::ReadLine),
                LineView::End => (StreamStage::Done, StreamStepView::Give(provider::ChunkView::Done)),
                LineView::Data(data) => data_next(data, json::parsed(data)),
            },
    {
        let chars: Vec<char> = text::chars_of(line);
        let trimmed: &[char] = text::trimmed(chars.as_slice());
        if !text::starts_with(trimmed, "data:") {
            return StreamStep::ReadLine;
        }
        proof {
            reveal_strlit("data:");
        }
        let rest: &[char] = slice_subrange(trimmed, 5, trimmed.len());
        proof {
            assert(rest@ =~= trimmed@.skip(5));
        }
        let data: &[char] = text::trimmed(rest);
        if data.len() == 0 {
            return StreamStep::ReadLine;
        }
        let end: Vec<char> = text::chars_of("[DONE]");
        if text::chars_eq(data, end.as_slice()) {
            self.stage = StreamStage::Done;
            return StreamStep::Give(ProviderChunk::Done);
        }
        let data: String = text::string_of(data);
        let value: Option<Json> = json::parse(data.as_str());
        self.take_data(data.as_str(), value)
    }

    /// Takes the text of an event, which reads as `value`, or as nothing where it
    /// is no JSON, and says what is to be done next.
    pub fn take_data(&mut self, data: &str, value: Option<Json>) -> (r: StreamStep)
        requires
            old(self)@ is Streaming,
        ensures
            (final(self)@, r@) == data_next(data@, json::opt_json(value)),
    {
        match value {
            None => {
                self.stage = StreamStage::Done;
                StreamStep::Fail(
                    ProviderError::new(
                        ProviderErrorKind::Malformed,
                        text::cat2("bad gemini SSE: ", text::debug_str(data).as_str()),
                    ),
                )
            },
            Some(v) => match parse_gemini_chunk(&v) {
                Some(c) => StreamStep::Give(c),
                None => StreamStep::ReadLine,
            },
        }
    }

    /// Takes the event that the stream waited for, and says what is to be done
    /// next.
    pub fn advance(&mut self, event: StreamEvent) -> (r: StreamStep)
        requires
            awaited(old(self)@, event),
        ensures
            (final(self)@, r@) == stream_next(old(self)@, event),
    {
        match event {
            StreamEvent::Answered { status, body } => {
                if 200 <= status && status <= 299 {
                    self.stage = StreamStage::Streaming;
                    return StreamStep::ReadLine;
                }
                self.stage = StreamStage::Done;
                StreamStep::Fail(
                    ProviderError::with_code(
                        kind_of_status(status),
                        text::decimal_text(status as u64),
                        body,
                    ),
                )
            },
            StreamEvent::NotSent { said } => {
                self.stage = StreamStage::Done;
                StreamStep::Fail(ProviderError::new(ProviderErrorKind::Network, said))
            },
            StreamEvent::Line { line } => self.line(line.as_str()),
            StreamEvent::LineFailed { error } => {
                self.stage = StreamStage::Done;
                StreamStep::Fail(error)
            },
            StreamEvent::LinesEnded => {
                self.stage = StreamStage::Done;
                StreamStep::Give(ProviderChunk::Done)
            },
        }
    }
}

// --------------------------------------------------------------------- laws

/// An error or the end of the answer is the last thing that a stream hands out,
/// and it always hands out one of them last: behind any other piece it reads on.
pub proof fn law_a_stream_ends_once(stage: StreamStage, event: StreamEvent)
    requires
        awaited(stage, event),
    ensures
        ({
            let (after, step) = stream_next(stage, event);
            &&& after is Done <==> step is Fail || step == StreamStepView::Give(
                provider::ChunkView::Done,
            )
            &&& after is Done ==> stream_resume(after) is End
            &&& step is Give && !(after is Done) ==> stream_resume(after) is ReadLine
        }),
{
    if let StreamEvent::Line { line } = event {
        if let LineView::Data(data) = line_of(line@) {
            if let Some(value) = json::parsed(data) {
                lemma_no_done(value);
            }
        }
    }
}

proof fn lemma_no_done(value: json::JsonView)
    ensures
        chunk_of(value) != Some(provider::ChunkView::Done),
{
    if let Some(parts) = candidate_parts(value) {
        lemma_parts_no_done(parts);
    }
}

proof fn lemma_parts_no_done(parts: Seq<json::JsonView>)
    ensures
        parts_chunk(parts) != Some(provider::ChunkView::Done),
    decreases parts.len(),
{
    if parts.len() > 0 {
        lemma_parts_no_done(parts.skip(1));
    }
}

/// The body of a request holds its contents, its generation settings and its
/// tools, and no other member: nothing else of the request reaches the wire.
pub proof fn law_only_these_members_are_sent(req: GenericAgentRequest, key: Seq<char>)
    requires
        key != "contents"@,
        key != "generationConfig"@,
        key != "tools"@,
    ensures
        body_json(req).get(key) is None,
{
    reveal_with_fuel(json::member, 4);
    if let json::JsonView::Object(m) = body_json(req) {
        if req.tools@.len() == 0 {
            assert(m.drop_last().drop_last() =~= Seq::empty());
        } else {
            assert(m.drop_last().drop_last().drop_last() =~= Seq::empty());
        }
    }
}

/// A call that the model made, sent back to it, reads as the same call: its id,
/// its name and its arguments are kept, where it has a name.
pub proof fn law_a_call_reads_back(id: String, name: String, input: Json, tool: Option<String>)
    requires
        name@.len() > 0,
    ensures
        part_chunk(
            part_json(
                ContentPart {
                    kind: ContentKind::ToolCall { id, name, input },
                    tool_call_id: tool,
                },
            ),
        ) == Some(
            provider::ChunkView::ToolCall { id: id@, name: name@, input: input@, complete: true },
        ),
{
    let part = part_json(
        ContentPart { kind: ContentKind::ToolCall { id, name, input }, tool_call_id: tool },
    );
    let call = part->Object_0[0].1;
    reveal_with_fuel(json::member, 4);
    reveal_strlit("text");
    reveal_strlit("functionCall");
    reveal_strlit("name");
    reveal_strlit("args");
    reveal_strlit("id");
    assert("text"@.len() == 4 && "functionCall"@.len() == 12);
    assert("name"@.len() == 4 && "id"@.len() == 2);
    assert("name"@[0] == 'n' && "args"@[0] == 'a');
    assert(part->Object_0.drop_last() =~= Seq::empty());
    assert(part.get("text"@) is None);
    assert(part.get("functionCall"@) == Some(call));
    let m = call->Object_0;
    assert(m.drop_last() =~= seq![m[0], m[1]]);
    assert(seq![m[0], m[1]].drop_last() =~= seq![m[0]]);
    assert(call.get("id"@) == Some(json::JsonView::Text(id@)));
    assert(call.get("args"@) == Some(input@));
    assert(call.get("name"@) == Some(json::JsonView::Text(name@)));
}

/// The message `i` of a request, as it is sent.
pub open spec fn sent_message(req: GenericAgentRequest, i: int) -> json::JsonView {
    body_json(req).get("contents"@)->0->List_0[i]
}

/// The part `j` of the message `i` of a request, as it is sent.
pub open spec fn sent_part(req: GenericAgentRequest, i: int, j: int) -> json::JsonView {
    sent_message(req, i).get("parts"@)->0->List_0[j]
}

#[verifier::rlimit(20)]
proof fn lemma_sent(req: GenericAgentRequest, i: int)
    requires
        0 <= i < req.messages@.len(),
    ensures
        body_json(req).get("contents"@) == Some(
            json::JsonView::List(
                Seq::new(req.messages@.len(), |i: int| message_json(req.messages@[i])),
            ),
        ),
        body_json(req).get("generationConfig"@) == Some(generation_json(req.max_output)),
        req.tools@.len() == 0 ==> body_json(req).get("tools"@) is None,
        req.tools@.len() > 0 ==> body_json(req).get("tools"@) == Some(
            json::JsonView::List(Seq::new(req.tools@.len(), |i: int| tool_json(req.tools@[i]))),
        ),
        sent_message(req, i) == message_json(req.messages@[i]),
        sent_message(req, i).get("role"@) == Some(
            json::JsonView::Text(role_name(req.messages@[i].role)),
        ),
        sent_message(req, i).get("parts"@) == Some(
            json::JsonView::List(
                Seq::new(
                    req.messages@[i].content@.len(),
                    |j: int| part_json(req.messages@[i].content@[j]),
                ),
            ),
        ),
{
    lemma_body_members(req);
    let m = req.messages@[i];
    reveal_strlit("role");
    reveal_strlit("parts");
    assert("role"@.len() == 4 && "parts"@.len() == 5);
    let role = ("role"@, json::JsonView::Text(role_name(m.role)));
    let parts = json::JsonView::List(Seq::new(m.content@.len(), |i: int| part_json(m.content@[i])));
    json::law_the_last_member_of_a_name_counts(seq![role], "parts"@, parts, "role"@);
    json::law_the_last_member_of_a_name_counts(Seq::empty(), role.0, role.1, "role"@);
    assert(seq![role].push(("parts"@, parts)) =~= seq![role, ("parts"@, parts)]);
    assert(Seq::empty().push(role) =~= seq![role]);
    assert(Seq::new(m.content@.len(), |i: int| part_json(m.content@[i])) =~= Seq::new(
        req.messages@[i].content@.len(),
        |j: int| part_json(req.messages@[i].content@[j]),
    ));
}

proof fn lemma_body_members(req: GenericAgentRequest)
    ensures
        body_json(req).get("contents"@) == Some(
            json::JsonView::List(
                Seq::new(req.messages@.len(), |i: int| message_json(req.messages@[i])),
            ),
        ),
        body_json(req).get("generationConfig"@) == Some(generation_json(req.max_output)),
        req.tools@.len() == 0 ==> body_json(req).get("tools"@) is None,
        req.tools@.len() > 0 ==> body_json(req).get("tools"@) == Some(
            json::JsonView::List(Seq::new(req.tools@.len(), |i: int| tool_json(req.tools@[i]))),
        ),
{
    reveal_strlit("contents");
    reveal_strlit("generationConfig");
    reveal_strlit("tools");
    assert("contents"@.len() == 8 && "generationConfig"@.len() == 16 && "tools"@.len() == 5);
    let a = (
        "contents"@,
        json::JsonView::List(Seq::new(req.messages@.len(), |i: int| message_json(req.messages@[i]))),
    );
    let b = ("generationConfig"@, generation_json(req.max_output));
    let c = (
        "tools"@,
        json::JsonView::List(Seq::new(req.tools@.len(), |i: int| tool_json(req.tools@[i]))),
    );
    lemma_three_members(a, b, c);
}

/// The members of an object of two or three, found by name.
proof fn lemma_three_members(
    a: (Seq<char>, json::JsonView),
    b: (Seq<char>, json::JsonView),
    c: (Seq<char>, json::JsonView),
)
    requires
        a.0 != b.0,
        a.0 != c.0,
        b.0 != c.0,
    ensures
        json::JsonView::Object(seq![a]).get(a.0) == Some(a.1),
        json::JsonView::Object(seq![a]).get(b.0) is None,
        json::JsonView::Object(seq![a, b]).get(a.0) == Some(a.1),
        json::JsonView::Object(seq![a, b]).get(b.0) == Some(b.1),
        json::JsonView::Object(seq![a, b]).get(c.0) is None,
        json::JsonView::Object(seq![a, b, c]).get(a.0) == Some(a.1),
        json::JsonView::Object(seq![a, b, c]).get(b.0) == Some(b.1),
        json::JsonView::Object(seq![a, b, c]).get(c.0) == Some(c.1),
{
    let none = Seq::<(Seq<char>, json::JsonView)>::empty();
    assert(none.push(a) =~= seq![a]);
    assert(seq![a].push(b) =~= seq![a, b]);
    assert(seq![a, b].push(c) =~= seq![a, b, c]);
    json::law_the_last_member_of_a_name_counts(none, a.0, a.1, b.0);
    json::law_the_last_member_of_a_name_counts(none, a.0, a.1, c.0);
    json::law_the_last_member_of_a_name_counts(seq![a], b.0, b.1, a.0);
    json::law_the_last_member_of_a_name_counts(seq![a], b.0, b.1, c.0);
    json::law_the_last_member_of_a_name_counts(seq![a, b], c.0, c.1, a.0);
    json::law_the_last_member_of_a_name_counts(seq![a, b], c.0, c.1, b.0);
}

/// Every message of a request is sent, in its place, with all of its parts; what
/// the assistant said is the model's, and all else the user's.
pub proof fn law_every_message_is_sent(req: GenericAgentRequest, i: int)
    requires
        0 <= i < req.messages@.len(),
    ensures
        (body_json(req).get("contents"@) matches Some(json::JsonView::List(l)) && l.len()
            == req.messages@.len()),
        (sent_message(req, i).get("parts"@) matches Some(json::JsonView::List(l)) && l.len()
            == req.messages@[i].content@.len()),
        req.messages@[i].role is Assistant ==> sent_message(req, i).get("role"@) == Some(
            json::JsonView::Text("model"@),
        ),
        !(req.messages@[i].role is Assistant) ==> sent_message(req, i).get("role"@) == Some(
            json::JsonView::Text("user"@),
        ),
{
    lemma_sent(req, i);
}

/// The text of a text part is kept on the wire: the part that is sent is an object
/// whose member `text` is that text, and where it is not empty the part reads back
/// as that text.
pub proof fn law_texts_are_kept_on_the_wire(req: GenericAgentRequest, i: int, j: int)
    requires
        0 <= i < req.messages@.len(),
        0 <= j < req.messages@[i].content@.len(),
    ensures
        ({
            let part = sent_part(req, i, j);
            match req.messages@[i].content@[j].kind {
                ContentKind::Text { text } => {
                    &&& part.get("text"@) == Some(json::JsonView::Text(text@))
                    &&& text@.len() > 0 ==> part_chunk(part) == Some(
                        provider::ChunkView::Text(text@),
                    )
                    &&& text@.len() == 0 ==> part_chunk(part) is None
                },
                ContentKind::Reasoning { text } => {
                    &&& part.get("text"@) == Some(json::JsonView::Text(text@))
                    &&& text@.len() > 0 ==> part_chunk(part) == Some(
                        provider::ChunkView::Text(text@),
                    )
                },
                _ => part.get("text"@) is None,
            }
        }),
{
    lemma_sent(req, i);
    let content = req.messages@[i].content@[j];
    assert(sent_part(req, i, j) == part_json(content));
    reveal_strlit("text");
    reveal_strlit("inline_data");
    reveal_strlit("functionCall");
    reveal_strlit("functionResponse");
    assert("text"@.len() == 4 && "inline_data"@.len() == 11 && "functionCall"@.len() == 12
        && "functionResponse"@.len() == 16);
    let m = part_json(content)->Object_0;
    assert(m =~= seq![m[0]]);
    assert(Seq::empty().push(m[0]) =~= seq![m[0]]);
    json::law_the_last_member_of_a_name_counts(Seq::empty(), m[0].0, m[0].1, "text"@);
    json::law_the_last_member_of_a_name_counts(Seq::empty(), m[0].0, m[0].1, "functionCall"@);
}

/// An image is sent as inline data, and the result of a call under the name of the
/// call that it answers, with its text and whether it is an error.
#[verifier::rlimit(20)]
pub proof fn law_images_and_results_are_kept_on_the_wire(
    req: GenericAgentRequest,
    i: int,
    j: int,
)
    requires
        0 <= i < req.messages@.len(),
        0 <= j < req.messages@[i].content@.len(),
    ensures
        ({
            let content = req.messages@[i].content@[j];
            let part = sent_part(req, i, j);
            match content.kind {
                ContentKind::Image { url } => {
                    let data = part.get("inline_data"@)->0;
                    &&& part.get("inline_data"@) is Some
                    &&& data.get("mime_type"@) == Some(json::JsonView::Text("image/png"@))
                    &&& data.get("data"@) == Some(json::JsonView::Text(url@))
                },
                ContentKind::ToolResult { content: said, is_error } => {
                    let call = part.get("functionResponse"@)->0;
                    let response = call.get("response"@)->0;
                    &&& part.get("functionResponse"@) is Some
                    &&& content.tool_call_id matches Some(id) ==> call.get("name"@) == Some(
                        json::JsonView::Text(id@),
                    )
                    &&& content.tool_call_id is None ==> call.get("name"@) == Some(
                        json::JsonView::Text("fn"@),
                    )
                    &&& call.get("response"@) is Some
                    &&& response.get("result"@) == Some(json::JsonView::Text(said@))
                    &&& response.get("is_error"@) == Some(json::JsonView::Bool(is_error))
                },
                _ => true,
            }
        }),
{
    lemma_sent(req, i);
    let content = req.messages@[i].content@[j];
    assert(sent_part(req, i, j) == part_json(content));
    reveal_strlit("inline_data");
    reveal_strlit("mime_type");
    reveal_strlit("data");
    reveal_strlit("functionResponse");
    reveal_strlit("name");
    reveal_strlit("response");
    reveal_strlit("result");
    reveal_strlit("is_error");
    assert("mime_type"@.len() == 9 && "data"@.len() == 4);
    assert("name"@.len() == 4 && "response"@.len() == 8);
    assert("result"@.len() == 6 && "is_error"@.len() == 8);
    let m = part_json(content)->Object_0;
    let z = (Seq::<char>::empty(), json::JsonView::Null);
    assert("inline_data"@.len() == 11 && "functionResponse"@.len() == 16);
    let y = (seq!['y', 'y'], json::JsonView::Null);
    assert(y.0.len() == 2 && z.0.len() == 0);
    if content.kind is Image || content.kind is ToolResult {
        lemma_three_members(m[0], y, z);
        assert(m =~= seq![m[0]]);
        let inner = m[0].1->Object_0;
        lemma_three_members(inner[0], inner[1], z);
        assert(inner =~= seq![inner[0], inner[1]]);
        if content.kind is ToolResult {
            let last = inner[1].1->Object_0;
            lemma_three_members(last[0], last[1], z);
            assert(last =~= seq![last[0], last[1]]);
        }
    }
}

/// A call is kept on the wire with its name, its arguments and its id.
#[verifier::rlimit(20)]
pub proof fn law_calls_are_kept_on_the_wire(req: GenericAgentRequest, i: int, j: int)
    requires
        0 <= i < req.messages@.len(),
        0 <= j < req.messages@[i].content@.len(),
        req.messages@[i].content@[j].kind is ToolCall,
    ensures
        ({
            let call = sent_part(req, i, j).get("functionCall"@)->0;
            &&& sent_part(req, i, j).get("functionCall"@) is Some
            &&& req.messages@[i].content@[j].kind matches ContentKind::ToolCall { id, name, input }
                && call.get("name"@) == Some(json::JsonView::Text(name@)) && call.get("args"@)
                == Some(input@) && call.get("id"@) == Some(json::JsonView::Text(id@))
        }),
{
    lemma_sent(req, i);
    let content = req.messages@[i].content@[j];
    assert(sent_part(req, i, j) == part_json(content));
    reveal_strlit("functionCall");
    reveal_strlit("name");
    reveal_strlit("args");
    reveal_strlit("id");
    assert("functionCall"@.len() == 12);
    assert("name"@[0] == 'n' && "args"@[0] == 'a' && "id"@.len() == 2 && "name"@.len() == 4
        && "args"@.len() == 4);
    let m = part_json(content)->Object_0;
    let y = (seq!['y', 'y'], json::JsonView::Null);
    let z = (Seq::<char>::empty(), json::JsonView::Null);
    assert(y.0.len() == 2 && z.0.len() == 0);
    lemma_three_members(m[0], y, z);
    assert(m =~= seq![m[0]]);
    let inner = m[0].1->Object_0;
    lemma_three_members(inner[0], inner[1], inner[2]);
    assert(inner =~= seq![inner[0], inner[1], inner[2]]);
}

/// Every tool is declared with its name, its description and its schema, and a
/// request without tools declares none.
#[verifier::rlimit(20)]
pub proof fn law_tools_are_declared(req: GenericAgentRequest, i: int)
    ensures
        req.tools@.len() == 0 ==> body_json(req).get("tools"@) is None,
        0 <= i < req.tools@.len() ==> {
            let tools = body_json(req).get("tools"@)->0->List_0;
            let declared = tools[i].get("functionDeclarations"@)->0->List_0;
            &&& body_json(req).get("tools"@) is Some
            &&& tools.len() == req.tools@.len()
            &&& tools[i].get("functionDeclarations"@) is Some
            &&& declared.len() == 1
            &&& declared[0].get("name"@) == Some(json::JsonView::Text(req.tools@[i].name@))
            &&& declared[0].get("description"@) == Some(
                json::JsonView::Text(req.tools@[i].description@),
            )
            &&& declared[0].get("parameters"@) == Some(req.tools@[i].input_schema@)
        },
{
    lemma_body_members(req);
    if 0 <= i < req.tools@.len() {
        reveal_strlit("functionDeclarations");
        reveal_strlit("name");
        reveal_strlit("description");
        reveal_strlit("parameters");
        assert("functionDeclarations"@.len() == 20 && "name"@.len() == 4 && "description"@.len()
            == 11 && "parameters"@.len() == 10);
        let y = (seq!['y', 'y'], json::JsonView::Null);
        let z = (Seq::<char>::empty(), json::JsonView::Null);
        assert(y.0.len() == 2 && z.0.len() == 0);
        let m = tool_json(req.tools@[i])->Object_0;
        lemma_three_members(m[0], y, z);
        assert(m =~= seq![m[0]]);
        let inner = m[0].1->List_0[0]->Object_0;
        lemma_three_members(inner[0], inner[1], inner[2]);
        assert(inner =~= seq![inner[0], inner[1], inner[2]]);
    }
}

/// The answer is asked for at a fixed temperature, and with at most as many tokens
/// as the request allows, where it says so.
pub proof fn law_the_output_is_limited_as_asked(req: GenericAgentRequest)
    ensures
        ({
            let generation = body_json(req).get("generationConfig"@)->0;
            &&& body_json(req).get("generationConfig"@) is Some
            &&& generation.get("temperature"@) == Some(json::JsonView::Number("0.7"@))
            &&& req.max_output is None ==> generation.get("maxOutputTokens"@) is None
            &&& req.max_output matches Some(n) ==> generation.get("maxOutputTokens"@) is Some
                && json::natural(generation.get("maxOutputTokens"@)->0) == Some(n as nat)
        }),
{
    lemma_body_members(req);
    reveal_strlit("temperature");
    reveal_strlit("maxOutputTokens");
    assert("temperature"@.len() == 11 && "maxOutputTokens"@.len() == 15);
    let m = generation_json(req.max_output)->Object_0;
    let z = (Seq::<char>::empty(), json::JsonView::Null);
    let y = ("maxOutputTokens"@, json::JsonView::Null);
    if let Some(n) = req.max_output {
        lemma_three_members(m[0], m[1], z);
        assert(m =~= seq![m[0], m[1]]);
        json::law_naturals_read_back(n as nat, json::JsonView::Null, 0);
    } else {
        lemma_three_members(m[0], y, z);
        assert(m =~= seq![m[0]]);
    }
}

/// An event of the answer whose first candidate has these parts, whatever else it
/// holds.
pub open spec fn has_parts(value: json::JsonView, parts: Seq<json::JsonView>) -> bool {
    &&& value.get("candidates"@) matches Some(json::JsonView::List(list))
    &&& list.len() > 0
    &&& list[0].get("content"@) matches Some(content)
    &&& content.get("parts"@) == Some(json::JsonView::List(parts))
}

/// The first part of an event that says something is given, whatever else the event
/// holds: a text as it is, or a call.
pub proof fn law_the_first_telling_part_is_given(
    value: json::JsonView,
    parts: Seq<json::JsonView>,
    n: int,
    text: Seq<char>,
)
    requires
        has_parts(value, parts),
        0 <= n < parts.len(),
        forall|i: int|
            0 <= i < n ==> (#[trigger] parts[i]).get("text"@) is None && parts[i].get(
                "functionCall"@,
            ) is None,
    ensures
        text.len() > 0 && parts[n].get("text"@) == Some(json::JsonView::Text(text)) ==> chunk_of(
            value,
        ) == Some(provider::ChunkView::Text(text)),
        (parts[n].get("text"@) is None || parts[n].get("text"@) == Some(
            json::JsonView::Text(Seq::empty()),
        )) ==> (parts[n].get("functionCall"@) matches Some(call) ==> (call_chunk(call) is Some
            ==> chunk_of(value) == call_chunk(call))),
{
    lemma_silent_parts(parts, n);
}

/// A call is read by its name, its id and its arguments.
pub proof fn law_a_call_is_read_by_its_members(
    call: json::JsonView,
    name: Seq<char>,
    id: Seq<char>,
    args: json::JsonView,
)
    requires
        call.get("name"@) == Some(json::JsonView::Text(name)),
        call.get("id"@) == Some(json::JsonView::Text(id)),
        call.get("args"@) == Some(args),
        name.len() > 0,
    ensures
        call_chunk(call) == Some(
            provider::ChunkView::ToolCall { id, name, input: args, complete: true },
        ),
{
}

/// An event without candidates, or whose first candidate has no parts, says
/// nothing.
pub proof fn law_an_event_without_parts_says_nothing(value: json::JsonView)
    ensures
        value.get("candidates"@) is None ==> chunk_of(value) is None,
        value.get("candidates"@) == Some(json::JsonView::List(Seq::empty())) ==> chunk_of(value)
            is None,
        (value.get("candidates"@) matches Some(json::JsonView::List(list)) && list.len() > 0
            && list[0].get("content"@) is None) ==> chunk_of(value) is None,
{
}

proof fn lemma_silent_parts(parts: Seq<json::JsonView>, n: int)
    requires
        0 <= n <= parts.len(),
        forall|i: int|
            0 <= i < n ==> (#[trigger] parts[i]).get("text"@) is None && parts[i].get(
                "functionCall"@,
            ) is None,
    ensures
        parts_chunk(parts) == parts_chunk(parts.skip(n)),
        n < parts.len() && part_chunk(parts[n]) is Some ==> parts_chunk(parts) == part_chunk(
            parts[n],
        ),
    decreases n,
{
    if n == 0 {
        assert(parts.skip(0) =~= parts);
    } else {
        assert(part_chunk(parts[0]) is None);
        let rest = parts.skip(1);
        assert forall|i: int| 0 <= i < n - 1 implies (#[trigger] rest[i]).get("text"@) is None
            && rest[i].get("functionCall"@) is None by {
            assert(rest[i] == parts[i + 1]);
        }
        lemma_silent_parts(rest, n - 1);
        assert(rest.skip(n - 1) =~= parts.skip(n));
    }
}

/// An event whose parts say nothing tells the tokens that it counts, and nothing
/// where it counts none. A count that is missing is none.
pub proof fn law_tokens_are_told_where_nothing_is_said(
    value: json::JsonView,
    parts: Seq<json::JsonView>,
    usage: json::JsonView,
    tokens_in: u64,
    tokens_out: u64,
)
    requires
        has_parts(value, parts),
        forall|i: int|
            0 <= i < parts.len() ==> (#[trigger] parts[i]).get("text"@) is None && parts[i].get(
                "functionCall"@,
            ) is None,
        usage.get("promptTokenCount"@) == Some(
            json::JsonView::Number(text::decimal(tokens_in as nat)),
        ) || (usage.get("promptTokenCount"@) is None && tokens_in == 0),
        usage.get("candidatesTokenCount"@) == Some(
            json::JsonView::Number(text::decimal(tokens_out as nat)),
        ) || (usage.get("candidatesTokenCount"@) is None && tokens_out == 0),
    ensures
        value.get("usageMetadata"@) == Some(usage) ==> chunk_of(value) == (if tokens_in == 0
            && tokens_out == 0 {
            None
        } else {
            Some(provider::ChunkView::Usage { tokens_in, tokens_out })
        }),
        value.get("usageMetadata"@) is None ==> chunk_of(value) is None,
{
    lemma_silent_parts(parts, parts.len() as int);
    assert(parts.skip(parts.len() as int) =~= Seq::empty());
    json::law_naturals_read_back(tokens_in as nat, json::JsonView::Null, 0);
    json::law_naturals_read_back(tokens_out as nat, json::JsonView::Null, 0);
}

/// A call without an id gets one from its name, and a call without arguments gets
/// none; one without a name is none.
pub proof fn law_a_bare_call_gets_an_id(name: Seq<char>)
    ensures
        ({
            let call = json::JsonView::Object(
                seq![("functionCall"@, json::JsonView::Object(seq![("name"@, json::JsonView::Text(name))]))],
            );
            part_chunk(call) == (if name.len() == 0 {
                None
            } else {
                Some(
                    provider::ChunkView::ToolCall {
                        id: "gemini_call_"@ + name,
                        name,
                        input: json::JsonView::Null,
                        complete: true,
                    },
                )
            })
        }),
{
    let a = ("name"@, json::JsonView::Text(name));
    let y = ("id"@, json::JsonView::Null);
    let z = ("args"@, json::JsonView::Null);
    reveal_strlit("name");
    reveal_strlit("id");
    reveal_strlit("args");
    reveal_strlit("text");
    reveal_strlit("functionCall");
    assert("name"@[0] == 'n' && "args"@[0] == 'a' && "id"@.len() == 2 && "name"@.len() == 4
        && "args"@.len() == 4);
    assert("functionCall"@.len() == 12 && "text"@.len() == 4);
    lemma_three_members(a, y, z);
    lemma_three_members(a, z, y);
    let f = ("functionCall"@, json::JsonView::Object(seq![a]));
    lemma_three_members(f, ("text"@, json::JsonView::Null), y);
}

/// The text of an event stands behind `data:`, without the white space around it;
/// `[DONE]` there is the end, and any other line is passed over.
pub proof fn law_events_stand_behind_data(
    before: Seq<char>,
    gap: Seq<char>,
    data: Seq<char>,
    after: Seq<char>,
)
    requires
        forall|i: int| 0 <= i < before.len() ==> text::is_ws(#[trigger] before[i]),
        forall|i: int| 0 <= i < gap.len() ==> text::is_ws(#[trigger] gap[i]),
        forall|i: int| 0 <= i < after.len() ==> text::is_ws(#[trigger] after[i]),
        data.len() > 0,
        !text::is_ws(data[0]),
        !text::is_ws(data.last()),
    ensures
        data != "[DONE]"@ ==> line_of(before + "data:"@ + gap + data + after) == LineView::Data(
            data,
        ),
        data == "[DONE]"@ ==> line_of(before + "data:"@ + gap + data + after) == LineView::End,
        !("data:"@).is_prefix_of(data) ==> line_of(before + data + after) == LineView::Skip,
        line_of(before + "data:"@ + after) == LineView::Skip,
{
    reveal_strlit("data:");
    let d = "data:"@;
    let inner = d + gap + data;
    assert(inner.last() == data.last() && inner[0] == 'd');
    text::law_trimming_leaves_the_text(before, inner, after);
    assert(before + inner + after =~= before + d + gap + data + after);
    assert(d =~= inner.subrange(0, 5));
    assert(inner.skip(5) =~= gap + data + Seq::<char>::empty());
    text::law_trimming_leaves_the_text(gap, data, Seq::empty());
    text::law_trimming_leaves_the_text(before, data, after);
    text::law_trimming_leaves_the_text(before, d, after);
    assert(d.skip(5) =~= Seq::empty());
    text::law_trimming_leaves_the_text(Seq::empty(), Seq::empty(), Seq::empty());
    assert(Seq::<char>::empty() + Seq::<char>::empty() + Seq::<char>::empty() =~= Seq::empty());
}

/// What a line of the answer leads to, by what it holds.
pub proof fn law_a_stream_gives_what_its_lines_say(line: String, data: Seq<char>)
    requires
        line_of(line@) == LineView::Data(data),
    ensures
        ({
            let (after, step) = stream_next(StreamStage::Streaming, StreamEvent::Line { line });
            match json::parsed(data) {
                None => after is Done && (step matches StreamStepView::Fail(f) && f.kind
                    == ProviderErrorKind::Malformed),
                Some(v) => after is Streaming && (match chunk_of(v) {
                    Some(c) => step == StreamStepView::Give(c),
                    None => step == StreamStepView::ReadLine,
                }),
            }
        }),
{
}

/// A request that is answered with success is read; any other answer ends the
/// stream with its status and its body, and so does one that never came.
pub proof fn law_a_refused_request_ends_the_stream(status: u16, body: String, said: String)
    ensures
        ({
            let (after, step) = stream_next(
                StreamStage::Fresh,
                StreamEvent::Answered { status, body },
            );
            &&& 200 <= status < 300 ==> after is Streaming && step is ReadLine
            &&& !(200 <= status < 300) ==> after is Done && (step matches StreamStepView::Fail(f)
                && f.message == body@ && f.code == Some(text::decimal(status as nat)) && f.kind
                == (match status {
                401 | 403 => ProviderErrorKind::Auth,
                429 => ProviderErrorKind::RateLimited,
                408 | 504 => ProviderErrorKind::Timeout,
                _ => if status / 100 == 5 {
                    ProviderErrorKind::Server
                } else {
                    ProviderErrorKind::BadRequest
                },
            }))
        }),
        stream_next(StreamStage::Fresh, StreamEvent::NotSent { said }) == (
            StreamStage::Done,
            StreamStepView::Fail(
                provider::ProviderFault {
                    kind: ProviderErrorKind::Network,
                    code: None,
                    message: said@,
                },
            ),
        ),
{
}

/// What is known of a model is what was said of it last; of one of which nothing
/// was said, the usual is taken.
pub proof fn law_what_is_known_of_a_model(
    caps: Seq<(String, ModelCapabilities)>,
    said: (String, ModelCapabilities),
    model: Seq<char>,
)
    ensures
        said.0@ == model ==> known(caps.push(said), model) == Some(said.1),
        said.0@ != model ==> known(caps.push(said), model) == known(caps, model),
        known(Seq::empty(), model) is None,
        default_caps().context == 1000000,
        default_caps().max_output == 8192,
        default_caps().tools,
        default_caps().vision,
        default_caps().streaming,
        !default_caps().parallel_tools,
        !default_caps().thinking,
        !default_caps().json_schema,
        !default_caps().embeddings,
        !default_caps().reasoning,
{
    assert(caps.push(said).drop_last() =~= caps);
}

/// What else can come of a line ends the stream, or is passed over: the end that
/// the answer names, the end of its lines, and a line that could not be read.
pub proof fn law_how_a_stream_ends(line: String, error: ProviderError)
    ensures
        stream_next(StreamStage::Streaming, StreamEvent::LinesEnded) == (
            StreamStage::Done,
            StreamStepView::Give(provider::ChunkView::Done),
        ),
        stream_next(StreamStage::Streaming, StreamEvent::LineFailed { error }) == (
            StreamStage::Done,
            StreamStepView::Fail(error@),
        ),
        line_of(line@) is End ==> stream_next(StreamStage::Streaming, StreamEvent::Line { line })
            == (StreamStage::Done, StreamStepView::Give(provider::ChunkView::Done)),
        line_of(line@) is Skip ==> stream_next(StreamStage::Streaming, StreamEvent::Line { line })
            == (StreamStage::Streaming, StreamStepView::ReadLine),
        stream_resume(StreamStage::Fresh) == StreamStepView::Send,
        stream_resume(StreamStage::Streaming) == StreamStepView::ReadLine,
        stream_resume(StreamStage::Done) == StreamStepView::End,
{
}

} // verus!
