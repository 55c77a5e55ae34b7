use our_cli::agent::extract_response_text;
use our_cli::chat::{
    normalize_chat_editor_input, read_chat_message_inner, validate_chat_editor_input, ChatInput,
    EditorValidation, MultilineHelper, CHAT_EDITOR_PROMPT,
};
use our_cli::json::Json;
use our_cli::memory::trim_history_lines_to;
use our_cli::output::{parse_hex_color, resolve_hex_color};

fn obj(members: Vec<(&str, Json)>) -> Json {
    Json::Object(members.into_iter().map(|(k, v)| (k.to_string(), v)).collect())
}

#[test]
fn main_parses_hex_color_with_hash() {
    assert_eq!(parse_hex_color("#b84367"), Some((184, 67, 103)));
}

#[test]
fn main_parses_hex_color_with_alpha_ignored() {
    assert_eq!(parse_hex_color("b84367fc"), Some((184, 67, 103)));
}

#[test]
fn main_rejects_invalid_hex_color() {
    assert_eq!(parse_hex_color("nothex"), None);
    assert_eq!(parse_hex_color("12345"), None);
}

#[test]
fn main_resolves_invalid_color_to_fallback() {
    assert_eq!(resolve_hex_color("nothex", "00ffff"), (0, 255, 255));
}

#[test]
fn main_extracts_output_text_shortcut() {
    let body = obj(vec![
        ("output_text", Json::Str("hello".to_string())),
        ("usage", obj(vec![("total_tokens", Json::UInt(12))])),
    ]);

    assert_eq!(extract_response_text(&body).as_deref(), Some("hello"));
}

#[test]
fn main_extracts_response_text_from_output_messages() {
    let part = |text: &str| {
        obj(vec![
            ("type", Json::Str("output_text".to_string())),
            ("text", Json::Str(text.to_string())),
        ])
    };
    let body = obj(vec![(
        "output",
        Json::Array(vec![obj(vec![
            ("type", Json::Str("message".to_string())),
            ("content", Json::Array(vec![part("first"), part("second")])),
        ])]),
    )]);

    assert_eq!(
        extract_response_text(&body).as_deref(),
        Some("first\nsecond")
    );
}

#[test]
fn main_returns_none_when_response_has_no_output() {
    let body = obj(vec![("id", Json::Str("response_without_text".to_string()))]);

    assert_eq!(extract_response_text(&body), None);
}

#[test]
fn main_trims_history_to_requested_lines() {
    let text = "one\ntwo\nthree\nfour\n";

    assert_eq!(trim_history_lines_to(text, 2), "three\nfour\n");
}

#[test]
fn main_leaves_short_history_unchanged() {
    let text = "one\ntwo\n";

    assert_eq!(trim_history_lines_to(text, 4), text);
}

#[test]
fn main_reads_multiline_chat_message_until_blank_line() {
    let input = b"first line\nsecond line\n\n";
    let mut reader = &input[..];

    assert_eq!(
        read_chat_message_inner(&mut reader).unwrap(),
        ChatInput::Message("first line\nsecond line".to_string())
    );
}

#[test]
fn main_reads_single_line_chat_message_after_blank_submit() {
    let input = b"hello\n\n";
    let mut reader = &input[..];

    assert_eq!(
        read_chat_message_inner(&mut reader).unwrap(),
        ChatInput::Message("hello".to_string())
    );
}

#[test]
fn main_exits_chat_when_exit_is_first_line() {
    let input = b"/exit\n";
    let mut reader = &input[..];

    assert_eq!(
        read_chat_message_inner(&mut reader).unwrap(),
        ChatInput::Exit
    );
}

#[test]
fn main_sends_buffered_message_on_eof() {
    let input = b"line without blank submit";
    let mut reader = &input[..];

    assert_eq!(
        read_chat_message_inner(&mut reader).unwrap(),
        ChatInput::Message("line without blank submit".to_string())
    );
}

#[test]
fn main_editor_input_is_valid_on_return() {
    assert!(matches!(
        validate_chat_editor_input("first line"),
        EditorValidation::Valid
    ));
}

#[test]
fn main_editor_input_is_valid_after_blank_submit() {
    assert!(matches!(
        validate_chat_editor_input("first line\n"),
        EditorValidation::Valid
    ));
}

#[test]
fn main_editor_input_normalizes_trailing_submit_newline() {
    assert_eq!(
        normalize_chat_editor_input("first line\nsecond line\n"),
        "first line\nsecond line"
    );
}

#[test]
fn main_editor_exit_command_is_valid_immediately() {
    assert!(matches!(
        validate_chat_editor_input("/exit"),
        EditorValidation::Valid
    ));
}

#[test]
fn main_editor_empty_input_is_invalid() {
    assert!(matches!(
        validate_chat_editor_input(""),
        EditorValidation::Invalid(_)
    ));
}

#[test]
fn main_editor_highlighter_colors_prompt_and_input() {
    let helper = MultilineHelper {
        input_color: Some("\x1b[38;2;1;2;3m".to_string()),
        colored_prompt: Some("\x1b[38;2;1;2;3m> \x1b[0m".to_string()),
    };

    assert_eq!(
        helper.highlight_prompt(CHAT_EDITOR_PROMPT, true),
        "\x1b[38;2;1;2;3m> \x1b[0m"
    );
    assert_eq!(helper.highlight("hello", 0), "\x1b[38;2;1;2;3mhello\x1b[0m");
}
