//! The Gemini protocol: what is sent, and how the answer is read.
use faktor::google::{
    parse_gemini_chunk, GeminiStream, GoogleConfig, GoogleProvider, StreamEvent, StreamStep,
};
use faktor::json::Json;
use faktor::provider::{
    ContentKind, ContentPart, GenericAgentRequest, ModelCapabilities, ProviderChunk, ProviderError,
    ProviderErrorKind, RequestMessage, Role, ToolSpec,
};

fn t(s: &str) -> Json {
    Json::Text(s.to_string())
}

fn object(members: Vec<(&str, Json)>) -> Json {
    Json::Object(members.into_iter().map(|(k, v)| (k.to_string(), v)).collect())
}

fn req(model: &str) -> GenericAgentRequest {
    GenericAgentRequest {
        model: model.to_string(),
        system: String::new(),
        messages: vec![RequestMessage { role: Role::User, content: vec![ContentPart::text("hi")] }],
        tools: vec![ToolSpec {
            name: "read_file".to_string(),
            description: "read".to_string(),
            input_schema: object(vec![("type", t("object"))]),
        }],
        max_output: Some(1024),
    }
}

/// The member at the end of a way of names and numbers.
fn at<'a>(value: &'a Json, way: &[&str]) -> &'a Json {
    let mut v = value;
    for step in way {
        v = match step.parse::<usize>() {
            Ok(i) => &v.as_list().expect("a list")[i],
            Err(_) => v.get(step).unwrap_or_else(|| panic!("{step} is missing")),
        };
    }
    v
}

/// All that a stream hands out over an answer of these lines.
fn read(lines: &[&str]) -> Vec<Result<ProviderChunk, ProviderError>> {
    let mut stream = GeminiStream::new();
    let mut out = Vec::new();
    let mut left = lines.iter();
    let mut step = stream.resume();
    loop {
        step = match step {
            StreamStep::Send => {
                stream.advance(StreamEvent::Answered { status: 200, body: String::new() })
            }
            StreamStep::ReadLine => stream.advance(match left.next() {
                Some(line) => StreamEvent::Line { line: line.to_string() },
                None => StreamEvent::LinesEnded,
            }),
            StreamStep::Give(chunk) => {
                out.push(Ok(chunk));
                stream.resume()
            }
            StreamStep::Fail(e) => {
                out.push(Err(e));
                stream.resume()
            }
            StreamStep::End => return out,
        };
    }
}

#[test]
fn wire_shape_is_clean() {
    let provider = GoogleProvider::build(
        GoogleConfig::new(Some("k".to_string())).with_base("http://base"),
    );
    let body = provider.wire_body(&req("gemini-x"));
    assert_eq!(at(&body, &["contents", "0", "role"]), &t("user"));
    assert!(body.get("tools").unwrap().as_list().is_some());
    assert_eq!(at(&body, &["tools", "0", "functionDeclarations", "0", "name"]), &t("read_file"));
    assert_eq!(
        at(&body, &["generationConfig", "maxOutputTokens"]),
        &Json::Number("1024".to_string())
    );
    for leaked in [
        "operation_id",
        "session_id",
        "attempt",
        "deadline_ms",
        "cancellation",
        "system",
    ] {
        assert!(body.get(leaked).is_none(), "{leaked} leaked!");
    }
    assert_eq!(
        provider.url("gemini-x"),
        "http://base/v1beta/models/gemini-x:streamGenerateContent?alt=sse&key=k"
    );
    assert_eq!(provider.id(), "google");
}

#[test]
fn text_and_function_call() {
    let chunks = read(&[
        r#"data: {"candidates":[{"content":{"parts":[{"text":"let me check"}]}}]}"#,
        "",
        r#"data: {"candidates":[{"content":{"parts":[{"functionCall":{"name":"read_file","args":{"path":"a.rs"},"id":"gc1"}}]}}]}"#,
        "",
        "data: [DONE]",
    ]);
    let mut text = String::new();
    let mut call = None;
    for chunk in chunks {
        match chunk.unwrap() {
            ProviderChunk::Text { text: t } => text.push_str(&t),
            ProviderChunk::ToolCall { id, name, input, .. } => call = Some((id, name, input)),
            ProviderChunk::Done => break,
            _ => {}
        }
    }
    assert_eq!(text, "let me check");
    let (id, name, input) = call.expect("function call");
    assert_eq!(id, "gc1");
    assert_eq!(name, "read_file");
    assert_eq!(input.get("path"), Some(&t("a.rs")));
}

fn refused(status: u16) -> ProviderError {
    let mut stream = GeminiStream::new();
    let body = r#"{"error":{"message":"quota"}}"#.to_string();
    match stream.advance(StreamEvent::Answered { status, body }) {
        StreamStep::Fail(e) => {
            assert_eq!(stream.resume(), StreamStep::End);
            e
        }
        other => panic!("expected a failure, got {other:?}"),
    }
}

#[test]
fn rate_limit_mapped() {
    let err = refused(429);
    assert_eq!(err.kind, ProviderErrorKind::RateLimited);
    assert_eq!(err.code.as_deref(), Some("429"));
    assert_eq!(err.message, r#"{"error":{"message":"quota"}}"#);
}

#[test]
fn every_status_has_its_kind() {
    for (status, kind) in [
        (401, ProviderErrorKind::Auth),
        (403, ProviderErrorKind::Auth),
        (408, ProviderErrorKind::Timeout),
        (504, ProviderErrorKind::Timeout),
        (500, ProviderErrorKind::Server),
        (599, ProviderErrorKind::Server),
        (400, ProviderErrorKind::BadRequest),
        (199, ProviderErrorKind::BadRequest),
        (300, ProviderErrorKind::BadRequest),
    ] {
        assert_eq!(refused(status).kind, kind, "{status}");
    }
    let mut stream = GeminiStream::new();
    match stream.advance(StreamEvent::NotSent { said: "refused".to_string() }) {
        StreamStep::Fail(e) => assert_eq!(e.kind, ProviderErrorKind::Network),
        other => panic!("expected a failure, got {other:?}"),
    }
}

#[test]
fn malformed_sse_is_loud() {
    let chunks = read(&["data: {broken", ""]);
    let first = chunks[0].clone();
    assert!(first.is_err());
    let e = first.unwrap_err();
    assert_eq!(e.kind, ProviderErrorKind::Malformed);
    assert_eq!(e.message, "bad gemini SSE: \"{broken\"");
    assert_eq!(chunks.len(), 1, "nothing follows a failure");
}

#[test]
fn function_call_and_function_response_ride_the_gemini_wire() {
    let provider = GoogleProvider::build(GoogleConfig::new(None));
    let mut r = req("gemini-x");
    let args = object(vec![("x", Json::Number("1".to_string()))]);
    r.messages = vec![
        RequestMessage {
            role: Role::Assistant,
            content: vec![ContentPart::tool_call("call_1", "echo", args.clone())],
        },
        RequestMessage {
            role: Role::User,
            content: vec![ContentPart::tool_result("echo: {\"x\":1}", false, "call_1")],
        },
    ];
    let body = provider.wire_body(&r);
    let contents = body.get("contents").unwrap().as_list().expect("contents array");
    assert_eq!(contents.len(), 2);
    assert_eq!(at(&contents[0], &["role"]), &t("model"));
    let call = at(&contents[0], &["parts", "0", "functionCall"]);
    assert_eq!(call.get("name"), Some(&t("echo")), "the name must ride the functionCall");
    assert_eq!(call.get("id"), Some(&t("call_1")), "the call id must ride the functionCall");
    assert_eq!(call.get("args"), Some(&args), "the call input must ride the functionCall");
    assert_eq!(at(&contents[1], &["role"]), &t("user"));
    let response = at(&contents[1], &["parts", "0", "functionResponse"]);
    assert_eq!(response.get("name"), Some(&t("call_1")));
    assert_eq!(
        at(response, &["response", "result"]),
        &t("echo: {\"x\":1}"),
        "the tool output must be on the wire verbatim"
    );
    assert_eq!(at(response, &["response", "is_error"]), &Json::Bool(false));
    // The end of an answer without events is the end of the stream.
    assert_eq!(read(&[]), vec![Ok(ProviderChunk::Done)]);
}

#[test]
fn sse_frame_split_across_http_chunks_assembles() {
    // The pieces of the answer are put together to lines before they are read.
    let pieces = [
        r#"data: {"candidates":[{"content":{"parts":[{"text":"hel"#,
        r#"lo"}]}}]}"#,
        "\n\n",
        "data: [DONE]\n\n",
    ];
    let whole = pieces.concat();
    let lines: Vec<&str> = whole.lines().collect();
    let mut text = String::new();
    for chunk in read(&lines) {
        match chunk {
            Ok(ProviderChunk::Text { text: t }) => text.push_str(&t),
            Ok(ProviderChunk::Done) => break,
            Ok(_) => {}
            Err(e) => panic!("fragmented SSE must assemble, got {e:?}"),
        }
    }
    assert_eq!(text, "hello");
}

#[test]
fn numbers_and_order_survive_parsing() {
    let chunks = read(&[
        r#"data: {"candidates":[{"content":{"parts":[{"functionCall":{"name":"f","args":{"b":[1,-2,2.5,null,true],"a":"x"}}}]}}]}"#,
    ]);
    let number = |s: &str| Json::Number(s.to_string());
    assert_eq!(
        chunks[0],
        Ok(ProviderChunk::ToolCall {
            id: "gemini_call_f".to_string(),
            name: "f".to_string(),
            input: object(vec![
                ("a", t("x")),
                (
                    "b",
                    Json::List(vec![
                        number("1"),
                        number("-2"),
                        number("2.5"),
                        Json::Null,
                        Json::Bool(true)
                    ])
                ),
            ]),
            complete: true,
        })
    );
}

#[test]
fn usage_is_read_where_nothing_else_is() {
    let n = |s: &str| Json::Number(s.to_string());
    let usage = |members| {
        object(vec![
            (
                "candidates",
                Json::List(vec![object(vec![(
                    "content",
                    object(vec![("parts", Json::List(vec![]))]),
                )])]),
            ),
            ("usageMetadata", object(members)),
        ])
    };
    let value = usage(vec![("promptTokenCount", n("7")), ("candidatesTokenCount", n("5"))]);
    assert_eq!(
        parse_gemini_chunk(&value),
        Some(ProviderChunk::Usage { tokens_in: 7, tokens_out: 5 })
    );
    let nothing = usage(vec![("promptTokenCount", n("0")), ("candidatesTokenCount", n("-1"))]);
    assert_eq!(parse_gemini_chunk(&nothing), None);
    assert_eq!(parse_gemini_chunk(&Json::Null), None);
}

#[test]
fn a_result_of_parsing_decides_the_next_step() {
    let streaming = || {
        let mut s = GeminiStream::new();
        s.advance(StreamEvent::Answered { status: 200, body: String::new() });
        s
    };
    let mut s = streaming();
    assert_eq!(s.take_data("{}", Some(object(vec![]))), StreamStep::ReadLine);
    assert_eq!(s.resume(), StreamStep::ReadLine);
    assert!(matches!(s.take_data("{", None), StreamStep::Fail(_)));
    assert_eq!(s.resume(), StreamStep::End);
    let mut s = streaming();
    let error = ProviderError::new(ProviderErrorKind::Network, "cut".to_string());
    assert_eq!(
        s.advance(StreamEvent::LineFailed { error: error.clone() }),
        StreamStep::Fail(error)
    );
    assert_eq!(s.resume(), StreamStep::End);
}

#[test]
fn capabilities_are_those_said_last() {
    let caps = ModelCapabilities { context: 5, ..Default::default() };
    let newer = ModelCapabilities { context: 6, ..Default::default() };
    let config = GoogleConfig::new(None).with_model("m", caps).with_model("m", newer);
    let provider = GoogleProvider::build(config);
    assert_eq!(provider.capabilities("m"), newer);
    assert_eq!(provider.capabilities("other").context, 1_000_000);
}

#[test]
fn images_and_reasoning_ride_as_parts() {
    let provider = GoogleProvider::build(GoogleConfig::new(None));
    let part = |kind| ContentPart { kind, tool_call_id: None };
    let mut r = req("m");
    r.tools.clear();
    r.max_output = None;
    r.messages[0].content = vec![
        part(ContentKind::Reasoning { text: "why".to_string() }),
        part(ContentKind::Image { url: "u".to_string() }),
    ];
    let body = provider.wire_body(&r);
    assert_eq!(at(&body, &["contents", "0", "parts", "0", "text"]), &t("why"));
    let image = at(&body, &["contents", "0", "parts", "1", "inline_data"]);
    assert_eq!(image.get("data"), Some(&t("u")));
    assert_eq!(image.get("mime_type"), Some(&t("image/png")));
    assert!(body.get("tools").is_none());
    assert!(at(&body, &["generationConfig"]).get("maxOutputTokens").is_none());
}
