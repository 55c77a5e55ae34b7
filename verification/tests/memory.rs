use our_cli::memory::{
    build_transcript_from_memory, history_line_limit, history_report, memory_after_exchange,
    trim_history_lines_to,
};

#[test]
fn builds_transcript_without_existing_memory() {
    assert_eq!(build_transcript_from_memory("", "hello"), "User: hello");
}

#[test]
fn builds_transcript_after_existing_memory() {
    assert_eq!(
        build_transcript_from_memory("User: old\n\nAssistant: reply\n\n", "new"),
        "User: old\n\nAssistant: reply\n\nUser: new"
    );
}

#[test]
fn memory_tests_trims_history_to_requested_lines() {
    let text = "one\ntwo\nthree\nfour\n";

    assert_eq!(trim_history_lines_to(text, 2), "three\nfour\n");
}

#[test]
fn memory_tests_leaves_short_history_unchanged() {
    let text = "one\ntwo\n";

    assert_eq!(trim_history_lines_to(text, 4), text);
}

#[test]
fn whitespace_only_memory_counts_as_empty() {
    assert_eq!(build_transcript_from_memory(" \n\t\n", "hi"), "User: hi");
}

#[test]
fn saved_exchange_is_the_transcript_then_the_answer() {
    assert_eq!(
        memory_after_exchange("User: hello", "Assistant text", 240),
        "User: hello\n\nAssistant: Assistant text\n\n"
    );
}

#[test]
fn saved_exchange_keeps_only_the_last_lines() {
    let saved = memory_after_exchange("User: a\n\nAssistant: b\n\nUser: c", "d", 4);
    assert_eq!(saved, "User: c\n\nAssistant: d\n\n");
    let saved = memory_after_exchange("User: a\n\nAssistant: b\n\nUser: c", "d", 3);
    assert_eq!(saved, "\nAssistant: d\n\n");
}

#[test]
fn remembered_exchange_prefixes_the_next_prompt() {
    let saved = memory_after_exchange("User: hello", "offline helper ok", 240);
    assert_eq!(
        build_transcript_from_memory(&saved, "what was my previous question?"),
        "User: hello\n\nAssistant: offline helper ok\n\nUser: what was my previous question?"
    );
}

#[test]
fn trimming_strips_carriage_returns_and_keeps_unterminated_last_line() {
    assert_eq!(trim_history_lines_to("a\r\nb\r\nc", 2), "b\nc\n");
    assert_eq!(trim_history_lines_to("a\nb", 0), "\n");
}

#[test]
fn trimming_twice_is_trimming_once() {
    let text = "1\n2\n3\n4\n5\n";
    let once = trim_history_lines_to(text, 3);
    assert_eq!(trim_history_lines_to(&once, 3), once);
}

#[test]
fn history_limit_setting() {
    assert_eq!(history_line_limit(None), 240);
    assert_eq!(history_line_limit(Some("12")), 12);
    assert_eq!(history_line_limit(Some("0")), 240);
    assert_eq!(history_line_limit(Some("lots")), 240);
}

#[test]
fn history_report_shows_memory_or_empty_notice() {
    assert_eq!(history_report(""), "our-cli memory is empty.\n");
    assert_eq!(history_report("  \n"), "our-cli memory is empty.\n");
    assert_eq!(history_report("User: hi\n"), "User: hi\n");
}
