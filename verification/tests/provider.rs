use arena::provider::anthropic::{self, ContentBlock, MessagesReply};
use arena::provider::gemini::{
    candidate_text, generate_body, generate_content_url, generation_config, headers, Candidate,
    GenerationConfig, ResponseContent, ResponsePart,
};
use arena::provider::http::{
    http_outcome, invalid_json, join_url, redact, redirect_step, reject_length_limit,
    request_failed, same_origin, Origin, RedirectStep,
};
use arena::provider::openai_compatible;
use arena::provider::openrouter::{self, ChatChoice};
use arena::provider::{CompletionRequest, ModelId, ProviderError, DEFAULT_MAX_TOKENS};
use arena::text::{chars_of, decimal_text, preview_text, text_of, thousandths_text};

fn missing() -> ProviderError {
    ProviderError::InvalidResponse("missing completion content".into())
}

fn truncated() -> ProviderError {
    ProviderError::InvalidResponse("completion truncated by output length limit".into())
}

#[test]
fn completion_request_carries_max_tokens() {
    let request = CompletionRequest {
        model: ModelId::new("m"),
        prompt: "p".into(),
        temperature: None,
        max_tokens: Some(DEFAULT_MAX_TOKENS),
    };
    assert_eq!(request.max_tokens, Some(4096));
    assert_eq!(request.temperature, None);
}

#[test]
fn messages_url_joins_base_without_duplicate_slash() {
    assert_eq!(
        anthropic::messages_url("https://api.anthropic.com/v1"),
        "https://api.anthropic.com/v1/messages"
    );
    assert_eq!(
        anthropic::messages_url("https://api.anthropic.com/v1/"),
        "https://api.anthropic.com/v1/messages"
    );
}

#[test]
fn generate_content_url_places_model_and_trims_slash() {
    assert_eq!(
        generate_content_url("https://generativelanguage.googleapis.com/v1beta", "gemini-test"),
        "https://generativelanguage.googleapis.com/v1beta/models/gemini-test:generateContent"
    );
    assert_eq!(
        generate_content_url("https://generativelanguage.googleapis.com/v1beta/", "gemini-test"),
        "https://generativelanguage.googleapis.com/v1beta/models/gemini-test:generateContent"
    );
}

#[test]
fn openai_compatible_chat_completions_url_joins_base_without_duplicate_slash() {
    assert_eq!(
        openai_compatible::chat_completions_url("https://api.openai.com/v1"),
        "https://api.openai.com/v1/chat/completions"
    );
    assert_eq!(
        openai_compatible::chat_completions_url("https://api.openai.com/v1/"),
        "https://api.openai.com/v1/chat/completions"
    );
}

#[test]
fn openrouter_chat_completions_url_joins_base_without_duplicate_slash() {
    assert_eq!(
        openrouter::chat_completions_url("https://openrouter.ai/api/v1"),
        "https://openrouter.ai/api/v1/chat/completions"
    );
    assert_eq!(
        openrouter::chat_completions_url("https://openrouter.ai/api/v1/"),
        "https://openrouter.ai/api/v1/chat/completions"
    );
}

#[test]
fn all_trailing_slashes_are_removed() {
    assert_eq!(join_url("https://x///", "/y"), "https://x/y");
    assert_eq!(join_url("//", "/y"), "/y");
    assert_eq!(openai_compatible::models_url("https://x/v1/"), "https://x/v1/models");
}

#[test]
fn an_empty_address_means_the_default() {
    assert_eq!(openai_compatible::base_url_or_default(None), "https://api.openai.com/v1");
    assert_eq!(
        openai_compatible::base_url_or_default(Some(String::new())),
        "https://api.openai.com/v1"
    );
    assert_eq!(openai_compatible::base_url_or_default(Some("http://x".into())), "http://x");
}

fn block(kind: &str, text: Option<&str>) -> ContentBlock {
    ContentBlock { kind: kind.into(), text: text.map(str::to_string) }
}

#[test]
fn text_blocks_are_joined() {
    assert_eq!(
        anthropic::message_text(&vec![
            block("thinking", Some("hm")),
            block("text", Some("a")),
            block("text", None),
            block("text", Some("b")),
        ]),
        Ok("ab".into())
    );
    assert_eq!(anthropic::message_text(&vec![block("text", Some(""))]), Ok(String::new()));
    assert_eq!(anthropic::message_text(&vec![block("thinking", Some("hm"))]), Err(missing()));
    assert_eq!(anthropic::message_text(&vec![]), Err(missing()));
}

#[test]
fn messages_that_hit_their_limit_are_refused() {
    let reply = |stop: Option<&str>| MessagesReply {
        content: vec![block("text", Some("a"))],
        stop_reason: stop.map(str::to_string),
    };
    assert_eq!(anthropic::completion(&reply(Some("end_turn"))).unwrap().text, "a");
    assert_eq!(anthropic::completion(&reply(None)).unwrap().text, "a");
    assert_eq!(anthropic::completion(&reply(Some("max_tokens"))), Err(truncated()));
    assert_eq!(
        anthropic::completion(&MessagesReply { content: vec![], stop_reason: None }),
        Err(missing())
    );
}

#[test]
fn the_first_choice_is_the_completion() {
    let choice = |finish: Option<&str>, content: Option<&str>| ChatChoice {
        finish_reason: finish.map(str::to_string),
        content: content.map(str::to_string),
    };
    assert_eq!(
        openrouter::completion(&vec![choice(Some("stop"), Some("a")), choice(None, None)])
            .unwrap()
            .text,
        "a"
    );
    assert_eq!(openrouter::completion(&vec![]), Err(missing()));
    assert_eq!(openrouter::completion(&vec![choice(None, None)]), Err(missing()));
    assert_eq!(
        openrouter::completion(&vec![choice(Some("length"), Some("a"))]),
        Err(truncated())
    );

    let contents = vec![Some("<think>reason</think>hello".to_string()), None];
    assert_eq!(
        openai_compatible::completion(&contents).unwrap().text,
        "<think>reason</think>hello"
    );
    assert_eq!(openai_compatible::completion(&vec![]), Err(missing()));
    assert_eq!(openai_compatible::completion(&vec![None]), Err(missing()));
}

fn candidate(parts: Option<Vec<Option<&str>>>) -> Candidate {
    Candidate {
        content: Some(ResponseContent {
            parts: parts.map(|parts| {
                parts
                    .into_iter()
                    .map(|text| ResponsePart { text: text.map(str::to_string) })
                    .collect()
            }),
        }),
    }
}

#[test]
fn parts_of_the_first_candidate_are_joined() {
    assert_eq!(
        candidate_text(&vec![candidate(Some(vec![Some("a"), None, Some("b")]))]),
        Ok("ab".into())
    );
    assert_eq!(candidate_text(&vec![candidate(Some(vec![None]))]), Err(missing()));
    assert_eq!(candidate_text(&vec![candidate(None)]), Err(missing()));
    assert_eq!(candidate_text(&vec![Candidate { content: None }]), Err(missing()));
    assert_eq!(candidate_text(&vec![]), Err(missing()));
}

#[test]
fn decoding_is_asked_for_only_if_set() {
    assert_eq!(generation_config(None, None), None);
    assert_eq!(
        generation_config(Some(0), None),
        Some(GenerationConfig { temperature: Some(0), max_output_tokens: None })
    );
    assert_eq!(
        generation_config(None, Some(7)),
        Some(GenerationConfig { temperature: None, max_output_tokens: Some(7) })
    );
}

#[test]
fn secrets_are_redacted() {
    assert_eq!(redact("key sk-1 and sk-1!", "sk-1"), "key [redacted] and [redacted]!");
    assert_eq!(redact("nothing here", "sk-1"), "nothing here");
    assert_eq!(redact("sk", "sk-1"), "sk");
    assert_eq!(redact("message", ""), "message");
    assert_eq!(redact("aaa", "aa"), "[redacted]a");
    assert_eq!(redact("", "x"), "");
    assert_eq!(
        request_failed("bad key sk-1", "sk-1"),
        ProviderError::RequestFailed("bad key [redacted]".into())
    );
    assert_eq!(
        invalid_json("sk-1", "sk-1"),
        ProviderError::InvalidResponse("[redacted]".into())
    );
}

#[test]
fn http_errors_keep_status_and_body() {
    assert_eq!(http_outcome(true, "200 OK", "{}", "k"), Ok(()));
    assert_eq!(
        http_outcome(false, "401 Unauthorized", "bad key sk-1", "sk-1"),
        Err(ProviderError::RequestFailed(
            "HTTP 401 Unauthorized: bad key [redacted]".into()
        ))
    );
}

#[test]
fn only_the_given_reason_is_a_length_limit() {
    assert_eq!(reject_length_limit(Some("length"), "length"), Err(truncated()));
    assert_eq!(reject_length_limit(Some("stop"), "length"), Ok(()));
    assert_eq!(reject_length_limit(None, "length"), Ok(()));
}

#[test]
fn redirects_stay_with_their_origin() {
    let origin = |scheme: &str, host: Option<&str>, port: Option<u16>| Origin {
        scheme: scheme.into(),
        host: host.map(str::to_string),
        port,
    };
    let home = origin("https", Some("a.test"), Some(443));
    assert!(same_origin(&home, &origin("https", Some("a.test"), Some(443))));
    assert!(!same_origin(&home, &origin("http", Some("a.test"), Some(443))));
    assert!(!same_origin(&home, &origin("https", Some("b.test"), Some(443))));
    assert!(!same_origin(&home, &origin("https", None, Some(443))));
    assert!(!same_origin(&home, &origin("https", Some("a.test"), Some(8443))));
    assert!(!same_origin(&home, &origin("https", Some("a.test"), None)));

    let other = origin("https", Some("b.test"), Some(443));
    assert_eq!(redirect_step(1, Some(&home), &home), RedirectStep::Follow);
    assert_eq!(redirect_step(1, Some(&home), &other), RedirectStep::Stop);
    assert_eq!(redirect_step(0, None, &other), RedirectStep::Follow);
    assert_eq!(redirect_step(10, Some(&home), &home), RedirectStep::Follow);
    assert_eq!(redirect_step(11, Some(&home), &home), RedirectStep::TooMany);
}

#[test]
fn numbers_and_texts_are_written_out() {
    assert_eq!(decimal_text(0), "0");
    assert_eq!(decimal_text(1_234_567_890), "1234567890");
    assert_eq!(decimal_text(u64::MAX), "18446744073709551615");
    assert_eq!(thousandths_text(0), "0");
    assert_eq!(thousandths_text(700), "0.7");
    assert_eq!(thousandths_text(1250), "1.25");
    assert_eq!(thousandths_text(12_005), "12.005");
    assert_eq!(preview_text("äbc", 2), "äb");
    assert_eq!(preview_text("äbc", 5), "äbc");
    let cs = chars_of("héllo");
    assert_eq!(cs.len(), 5);
    assert_eq!(text_of(&cs, 1, 3), "él");
}

#[test]
fn requests_are_put_into_the_form_that_is_sent() {
    let request = || CompletionRequest {
        model: ModelId::new("m"),
        prompt: "hello".into(),
        temperature: Some(0),
        max_tokens: None,
    };
    let body = openai_compatible::chat_body(request());
    assert_eq!(body.model, "m");
    assert_eq!(body.messages.len(), 1);
    assert_eq!(body.messages[0].role, "user");
    assert_eq!(body.messages[0].content, "hello");
    assert_eq!((body.temperature, body.max_tokens), (Some(0), None));

    let body = generate_body(request());
    assert_eq!((body.role, body.text.as_str()), ("user", "hello"));
    assert_eq!(
        body.generation_config,
        Some(GenerationConfig { temperature: Some(0), max_output_tokens: None })
    );
    assert_eq!(
        anthropic::headers("k"),
        vec![
            ("x-api-key", "k".to_string()),
            ("anthropic-version", "2023-06-01".to_string())
        ]
    );
    assert_eq!(headers("k"), vec![("x-goog-api-key", "k".to_string())]);
}
