use our_cli::chat::{validate_chat_editor_input, EditorValidation, MultilineHelper, CHAT_EDITOR_PROMPT};

#[test]
fn editor_tests_editor_input_is_valid_on_return() {
    assert!(matches!(
        validate_chat_editor_input("first line"),
        EditorValidation::Valid
    ));
}

#[test]
fn editor_tests_editor_input_is_valid_after_blank_submit() {
    assert!(matches!(
        validate_chat_editor_input("first line\n"),
        EditorValidation::Valid
    ));
}

#[test]
fn editor_tests_editor_exit_command_is_valid_immediately() {
    assert!(matches!(
        validate_chat_editor_input("/exit"),
        EditorValidation::Valid
    ));
}

#[test]
fn editor_tests_editor_empty_input_is_invalid() {
    assert!(matches!(
        validate_chat_editor_input(""),
        EditorValidation::Invalid(_)
    ));
}

#[test]
fn editor_tests_editor_highlighter_colors_prompt_and_input() {
    let helper = MultilineHelper {
        input_color: Some("\x1b[38;2;1;2;3m".to_string()),
        colored_prompt: Some("\x1b[38;2;1;2;3m> \x1b[0m".to_string()),
    };

    assert_eq!(
        helper.highlight_prompt(CHAT_EDITOR_PROMPT, true),
        "\x1b[38;2;1;2;3m> \x1b[0m"
    );
    assert_eq!(helper.highlight("hello", 0), "\x1b[38;2;1;2;3mhello\x1b[0m");
}

#[test]
fn blank_input_notice_tells_how_to_quit() {
    match validate_chat_editor_input(" \r\n") {
        EditorValidation::Invalid(message) => {
            assert_eq!(message, "Enter a message, or type /exit to quit.\n")
        }
        EditorValidation::Valid => panic!("blank input must be invalid"),
    }
}

#[test]
fn helper_without_color_shows_text_unchanged() {
    let helper = MultilineHelper::new(false, None);

    assert_eq!(helper.input_color, None);
    assert_eq!(helper.highlight_prompt(CHAT_EDITOR_PROMPT, true), "> ");
    assert_eq!(helper.highlight("hello", 3), "hello");
}

#[test]
fn helper_with_color_uses_prompt_color() {
    let helper = MultilineHelper::new(true, None);
    assert_eq!(helper.input_color.as_deref(), Some("\x1b[38;2;216;174;109m"));
    assert_eq!(
        helper.colored_prompt.as_deref(),
        Some("\x1b[38;2;216;174;109m> \x1b[0m")
    );
    assert_eq!(helper.highlight_prompt("? ", false), "? ");

    let configured = MultilineHelper::new(true, Some("#8a2be2"));
    assert_eq!(configured.input_color.as_deref(), Some("\x1b[38;2;138;43;226m"));
}
