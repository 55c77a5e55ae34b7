use our_cli::agent::{
    extract_response_text, parse_agent_response, plan_agent_request, AgentConfig,
    AgentConfigError, AgentEnv, AgentError, AgentRequest,
};
use our_cli::json::Json;

fn s(text: &str) -> String {
    text.to_string()
}

fn obj(members: Vec<(&str, Json)>) -> Json {
    Json::Object(members.into_iter().map(|(k, v)| (k.to_string(), v)).collect())
}

fn text_part(text: &str) -> Json {
    obj(vec![("type", Json::Str(s("output_text"))), ("text", Json::Str(s(text)))])
}

fn empty_env() -> AgentEnv {
    AgentEnv {
        openai_api_key: None,
        ai_api_key: None,
        openai_model: None,
        openai_base_url: None,
        our_cli_instructions: None,
        asm_agent_instructions: None,
        openai_max_output_tokens: None,
    }
}

#[test]
fn agent_tests_extracts_output_text_shortcut() {
    let body = obj(vec![
        ("output_text", Json::Str(s("hello"))),
        ("usage", obj(vec![("total_tokens", Json::UInt(12))])),
    ]);

    assert_eq!(extract_response_text(&body).as_deref(), Some("hello"));
}

#[test]
fn agent_tests_extracts_response_text_from_output_messages() {
    let body = obj(vec![(
        "output",
        Json::Array(vec![obj(vec![
            ("type", Json::Str(s("message"))),
            ("content", Json::Array(vec![text_part("first"), text_part("second")])),
        ])]),
    )]);

    assert_eq!(
        extract_response_text(&body).as_deref(),
        Some("first\nsecond")
    );
}

#[test]
fn agent_tests_returns_none_when_response_has_no_output() {
    let body = obj(vec![("id", Json::Str(s("response_without_text")))]);

    assert_eq!(extract_response_text(&body), None);
}

#[test]
fn skips_non_message_outputs_and_other_parts() {
    let body = obj(vec![(
        "output",
        Json::Array(vec![
            obj(vec![("type", Json::Str(s("reasoning")))]),
            obj(vec![
                ("type", Json::Str(s("message"))),
                (
                    "content",
                    Json::Array(vec![
                        obj(vec![("type", Json::Str(s("refusal"))), ("text", Json::Str(s("no")))]),
                        text_part("kept"),
                    ]),
                ),
            ]),
        ]),
    )]);

    assert_eq!(extract_response_text(&body).as_deref(), Some("kept"));
}

#[test]
fn message_without_content_list_gives_no_text() {
    let body = obj(vec![(
        "output",
        Json::Array(vec![obj(vec![("type", Json::Str(s("message")))])]),
    )]);

    assert_eq!(extract_response_text(&body), None);
}

#[test]
fn empty_output_list_gives_empty_text() {
    let body = obj(vec![("output", Json::Array(vec![]))]);

    assert_eq!(extract_response_text(&body).as_deref(), Some(""));
}

#[test]
fn parses_successful_response_with_tokens() {
    let body = obj(vec![
        ("output_text", Json::Str(s("hi"))),
        ("usage", obj(vec![("total_tokens", Json::UInt(7))])),
    ]);

    let response = parse_agent_response(200, &body).unwrap();
    assert_eq!(response.text, "hi");
    assert_eq!(response.total_tokens, Some(7));
}

#[test]
fn token_count_that_is_not_an_unsigned_integer_is_ignored() {
    let body = obj(vec![
        ("output_text", Json::Str(s("hi"))),
        ("usage", obj(vec![("total_tokens", Json::NegInt(-3))])),
    ]);

    assert_eq!(parse_agent_response(201, &body).unwrap().total_tokens, None);
}

#[test]
fn blank_response_text_is_an_error() {
    let body = obj(vec![("output_text", Json::Str(s("  \n")))]);

    assert_eq!(parse_agent_response(200, &body).err(), Some(AgentError::MissingText));
    assert_eq!(
        AgentError::MissingText.describe(),
        "OpenAI response did not include text output."
    );
}

#[test]
fn failed_request_reports_error_message() {
    let body = obj(vec![("error", obj(vec![("message", Json::Str(s("bad key")))]))]);

    let error = parse_agent_response(401, &body).err().unwrap();
    assert_eq!(
        error,
        AgentError::RequestFailed {
            status: 401,
            message: s("bad key")
        }
    );
    assert_eq!(error.describe(), "OpenAI request failed (401 Unauthorized): bad key");
}

#[test]
fn failed_request_falls_back_to_top_level_message_then_unknown() {
    let body = obj(vec![("message", Json::Str(s("slow down")))]);
    assert_eq!(
        parse_agent_response(429, &body).err().unwrap().describe(),
        "OpenAI request failed (429 Too Many Requests): slow down"
    );

    let empty = obj(vec![]);
    assert_eq!(
        parse_agent_response(599, &empty).err().unwrap().describe(),
        "OpenAI request failed (599 <unknown status code>): unknown error"
    );
}

#[test]
fn config_requires_an_api_key() {
    let env = empty_env();

    assert_eq!(AgentConfig::from_env_vars(&env).err(), Some(AgentConfigError::MissingApiKey));
    assert_eq!(
        AgentConfigError::MissingApiKey.describe(),
        "Missing OPENAI_API_KEY. Set it before calling the AI helper."
    );
}

#[test]
fn config_uses_defaults_and_alternate_key() {
    let mut env = empty_env();
    env.ai_api_key = Some(s("alt-key"));

    let config = AgentConfig::from_env_vars(&env).unwrap();
    assert_eq!(config.api_key, "alt-key");
    assert_eq!(config.model, "gpt-5.4-mini");
    assert_eq!(config.base_url, "https://api.openai.com/v1");
    assert!(config.instructions.starts_with("You are a concise terminal assistant."));
    assert_eq!(config.max_output_tokens, 800);
}

#[test]
fn config_prefers_primary_settings() {
    let mut env = empty_env();
    env.openai_api_key = Some(s("main-key"));
    env.ai_api_key = Some(s("alt-key"));
    env.our_cli_instructions = Some(s("be brief"));
    env.asm_agent_instructions = Some(s("be long"));
    env.openai_max_output_tokens = Some(s("+64"));

    let config = AgentConfig::from_env_vars(&env).unwrap();
    assert_eq!(config.api_key, "main-key");
    assert_eq!(config.instructions, "be brief");
    assert_eq!(config.max_output_tokens, 64);
}

#[test]
fn config_rejects_invalid_max_output_tokens() {
    for bad in ["", "-1", "12a", "18446744073709551616", "+"] {
        let mut env = empty_env();
        env.openai_api_key = Some(s("k"));
        env.openai_max_output_tokens = Some(s(bad));
        assert_eq!(
            AgentConfig::from_env_vars(&env).err(),
            Some(AgentConfigError::InvalidMaxOutputTokens),
            "{bad}"
        );
    }
    assert_eq!(
        AgentConfigError::InvalidMaxOutputTokens.describe(),
        "OPENAI_MAX_OUTPUT_TOKENS must be a positive integer."
    );
}

#[test]
fn endpoint_drops_trailing_slashes() {
    let mut env = empty_env();
    env.openai_api_key = Some(s("k"));
    env.openai_base_url = Some(s("http://localhost:8080/v1//"));

    let config = AgentConfig::from_env_vars(&env).unwrap();
    assert_eq!(config.endpoint_url(), "http://localhost:8080/v1/responses");
}

#[test]
fn request_body_is_escaped_json() {
    let config = AgentConfig {
        api_key: s("k"),
        model: s("m"),
        base_url: s("b"),
        instructions: s("say \"hi\""),
        max_output_tokens: 5,
    };

    assert_eq!(
        config.request_body("line1\nline2"),
        "{\"input\":\"line1\\nline2\",\"instructions\":\"say \\\"hi\\\"\",\"max_output_tokens\":5,\"model\":\"m\"}"
    );
}

#[test]
fn mock_response_takes_precedence() {
    let env = empty_env();

    match plan_agent_request(Some(s("offline helper ok")), Some("42"), &env, "hello").unwrap() {
        AgentRequest::Mock(response) => {
            assert_eq!(response.text, "offline helper ok");
            assert_eq!(response.total_tokens, Some(42));
        }
        AgentRequest::Http { .. } => panic!("expected the offline response"),
    }

    match plan_agent_request(Some(s("ok")), Some("many"), &env, "hello").unwrap() {
        AgentRequest::Mock(response) => assert_eq!(response.total_tokens, None),
        AgentRequest::Http { .. } => panic!("expected the offline response"),
    }
}

#[test]
fn request_plan_uses_configuration() {
    let mut env = empty_env();
    env.openai_api_key = Some(s("key"));

    match plan_agent_request(None, None, &env, "hi").unwrap() {
        AgentRequest::Http { url, api_key, body } => {
            assert_eq!(url, "https://api.openai.com/v1/responses");
            assert_eq!(api_key, "key");
            assert!(body.starts_with("{\"input\":\"hi\","));
            assert!(body.ends_with(",\"max_output_tokens\":800,\"model\":\"gpt-5.4-mini\"}"));
        }
        AgentRequest::Mock(_) => panic!("expected a request"),
    }

    assert!(plan_agent_request(None, None, &empty_env(), "hi").is_err());
}

#[test]
fn request_body_escapes_controls_and_backslashes() {
    let config = AgentConfig {
        api_key: s("k"),
        model: s("a\\b"),
        base_url: s("b"),
        instructions: s("\u{1}\u{8}\t\u{c}\r\u{1f}é"),
        max_output_tokens: 0,
    };

    assert_eq!(
        config.request_body(""),
        "{\"input\":\"\",\"instructions\":\"\\u0001\\b\\t\\f\\r\\u001fé\",\"max_output_tokens\":0,\"model\":\"a\\\\b\"}"
    );
}

#[test]
fn status_outside_the_known_range_has_no_reason() {
    let empty = obj(vec![]);
    assert_eq!(
        parse_agent_response(42, &empty).err().unwrap().describe(),
        "OpenAI request failed (42 <unknown status code>): unknown error"
    );
}
