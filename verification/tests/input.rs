use our_cli::chat::{
    is_exit_command, normalize_chat_editor_input, read_chat_message_inner, ChatInput,
    ChatMessageReader,
};

#[test]
fn input_reads_multiline_chat_message_until_blank_line() {
    let input = b"first line\nsecond line\n\n";
    let mut reader = &input[..];

    assert_eq!(
        read_chat_message_inner(&mut reader).unwrap(),
        ChatInput::Message("first line\nsecond line".to_string())
    );
}

#[test]
fn input_reads_single_line_chat_message_after_blank_submit() {
    let input = b"hello\n\n";
    let mut reader = &input[..];

    assert_eq!(
        read_chat_message_inner(&mut reader).unwrap(),
        ChatInput::Message("hello".to_string())
    );
}

#[test]
fn input_exits_chat_when_exit_is_first_line() {
    let input = b"/exit\n";
    let mut reader = &input[..];

    assert_eq!(
        read_chat_message_inner(&mut reader).unwrap(),
        ChatInput::Exit
    );
}

#[test]
fn input_sends_buffered_message_on_eof() {
    let input = b"line without blank submit";
    let mut reader = &input[..];

    assert_eq!(
        read_chat_message_inner(&mut reader).unwrap(),
        ChatInput::Message("line without blank submit".to_string())
    );
}

#[test]
fn input_editor_input_normalizes_trailing_submit_newline() {
    assert_eq!(
        normalize_chat_editor_input("first line\nsecond line\n"),
        "first line\nsecond line"
    );
}

#[test]
fn input_tests_reads_multiline_chat_message_until_blank_line() {
    let input = b"first line\nsecond line\n\n";
    let mut reader = &input[..];

    assert_eq!(
        read_chat_message_inner(&mut reader).unwrap(),
        ChatInput::Message("first line\nsecond line".to_string())
    );
}

#[test]
fn input_tests_reads_single_line_chat_message_after_blank_submit() {
    let input = b"hello\n\n";
    let mut reader = &input[..];

    assert_eq!(
        read_chat_message_inner(&mut reader).unwrap(),
        ChatInput::Message("hello".to_string())
    );
}

#[test]
fn input_tests_exits_chat_when_exit_is_first_line() {
    let input = b"/exit\n";
    let mut reader = &input[..];

    assert_eq!(
        read_chat_message_inner(&mut reader).unwrap(),
        ChatInput::Exit
    );
}

#[test]
fn input_tests_sends_buffered_message_on_eof() {
    let input = b"line without blank submit";
    let mut reader = &input[..];

    assert_eq!(
        read_chat_message_inner(&mut reader).unwrap(),
        ChatInput::Message("line without blank submit".to_string())
    );
}

#[test]
fn input_tests_editor_input_normalizes_trailing_submit_newline() {
    assert_eq!(
        normalize_chat_editor_input("first line\nsecond line\n"),
        "first line\nsecond line"
    );
}

#[test]
fn skips_blank_lines_before_a_message_and_leaves_the_rest() {
    let input = b"\n\r\nhi\r\nthere\r\n\r\nnext\n";
    let mut reader = &input[..];

    assert_eq!(
        read_chat_message_inner(&mut reader).unwrap(),
        ChatInput::Message("hi\nthere".to_string())
    );
    assert_eq!(reader, b"next\n");
}

#[test]
fn quit_with_spaces_is_an_exit_only_on_the_first_line() {
    let input = b"  /quit \n";
    let mut reader = &input[..];
    assert_eq!(read_chat_message_inner(&mut reader).unwrap(), ChatInput::Exit);

    let input = b"hello\n/quit\n\n";
    let mut reader = &input[..];
    assert_eq!(
        read_chat_message_inner(&mut reader).unwrap(),
        ChatInput::Message("hello\n/quit".to_string())
    );
}

#[test]
fn empty_input_is_end_of_input() {
    let input = b"";
    let mut reader = &input[..];
    assert_eq!(read_chat_message_inner(&mut reader).unwrap(), ChatInput::Eof);

    let input = b"\n\n";
    let mut reader = &input[..];
    assert_eq!(read_chat_message_inner(&mut reader).unwrap(), ChatInput::Eof);
}

#[test]
fn non_ascii_lines_are_read() {
    let input = "héllo wörld\n\n".as_bytes();
    let mut reader = input;
    assert_eq!(
        read_chat_message_inner(&mut reader).unwrap(),
        ChatInput::Message("héllo wörld".to_string())
    );
}

#[test]
fn invalid_utf8_line_is_an_error() {
    let input = b"ok\n\xff\xfe\nrest\n";
    let mut reader = &input[..];
    assert_eq!(
        read_chat_message_inner(&mut reader),
        Err(our_cli::chat::ChatReadError::InvalidUtf8)
    );
    assert_eq!(reader, b"rest\n");
}

#[test]
fn editor_input_turns_crlf_into_lf() {
    assert_eq!(normalize_chat_editor_input("a\r\nb\r\n\r\n"), "a\nb");
    assert_eq!(normalize_chat_editor_input("\r\n"), "");
}

#[test]
fn exit_commands_are_recognised() {
    assert!(is_exit_command("/exit"));
    assert!(is_exit_command(" /quit\t"));
    assert!(!is_exit_command("/exits"));
    assert!(!is_exit_command("exit"));
}

#[test]
fn message_reader_gathers_lines() {
    let mut reader = ChatMessageReader::new();
    assert!(reader.is_first_line());
    assert_eq!(reader.feed(Some("\n")), None);
    assert_eq!(reader.feed(Some("one\n")), None);
    assert!(!reader.is_first_line());
    assert_eq!(reader.feed(Some("/exit\n")), None);
    assert_eq!(
        reader.feed(None),
        Some(ChatInput::Message("one\n/exit".to_string()))
    );
}
