use our_cli::agent::AgentResponse;
use our_cli::output::{
    color_sequence, format_prompt, format_response, hex_color_would_panic, parse_hex_color,
    resolve_hex_color, use_color,
};

#[test]
fn output_tests_parses_hex_color_with_hash() {
    assert_eq!(parse_hex_color("#b84367"), Some((184, 67, 103)));
}

#[test]
fn output_tests_parses_hex_color_with_alpha_ignored() {
    assert_eq!(parse_hex_color("b84367fc"), Some((184, 67, 103)));
}

#[test]
fn output_tests_rejects_invalid_hex_color() {
    assert_eq!(parse_hex_color("nothex"), None);
    assert_eq!(parse_hex_color("12345"), None);
}

#[test]
fn output_tests_resolves_invalid_color_to_fallback() {
    assert_eq!(resolve_hex_color("nothex", "00ffff"), (0, 255, 255));
}

#[test]
fn defaults_invalid_color_and_fallback_to_white() {
    assert_eq!(resolve_hex_color("nothex", "also-bad"), (255, 255, 255));
}

#[test]
fn color_sequence_uses_fallback_for_unset_env() {
    assert_eq!(color_sequence(None, "010203"), "\x1b[38;2;1;2;3m");
}

#[test]
fn stdout_is_not_colored_in_tests() {
    assert!(!use_color(false, false, None));
}

#[test]
fn formats_plain_response_without_tokens() {
    assert_eq!(
        format_response(
            &AgentResponse {
                text: "hello".to_string(),
                total_tokens: None,
            },
            false,
            None
        ),
        "hello\n"
    );
}

#[test]
fn formats_plain_response_with_tokens() {
    assert_eq!(
        format_response(
            &AgentResponse {
                text: "hello".to_string(),
                total_tokens: Some(12),
            },
            false,
            None
        ),
        "hello\n\n[tokens: 12]\n"
    );
}

#[test]
fn formats_colored_response_with_tokens() {
    assert_eq!(
        format_response(
            &AgentResponse {
                text: "hello".to_string(),
                total_tokens: Some(12),
            },
            true,
            None
        ),
        "\x1b[38;2;0;255;255mhello\x1b[0m\n\n\x1b[2m[tokens: 12]\x1b[0m\n"
    );
}

#[test]
fn formats_plain_prompts() {
    assert_eq!(format_prompt(true, false, None), "> ");
    assert_eq!(format_prompt(false, false, None), "| ");
}

#[test]
fn formats_colored_prompt() {
    assert_eq!(format_prompt(true, true, None), "\x1b[38;2;216;174;109m> ");
}

#[test]
fn configured_assistant_color_is_used() {
    let response = AgentResponse {
        text: "x".to_string(),
        total_tokens: None,
    };
    assert_eq!(
        format_response(&response, true, Some("ffcc00")),
        "\x1b[38;2;255;204;0mx\x1b[0m\n"
    );
    assert_eq!(
        format_response(&response, true, Some("bogus")),
        "\x1b[38;2;0;255;255mx\x1b[0m\n"
    );
}

#[test]
fn color_settings_edge_cases() {
    assert_eq!(parse_hex_color("  ##0A0b0C  "), Some((10, 11, 12)));
    assert_eq!(parse_hex_color("+f+e+d"), Some((15, 14, 13)));
    assert_eq!(parse_hex_color("-f0000"), None);
    assert_eq!(parse_hex_color("ééé"), None);
    assert!(!hex_color_would_panic("ééé"));
    assert!(hex_color_would_panic("€abc"));
    assert!(hex_color_would_panic("aébcd"));
    assert!(!hex_color_would_panic("éabcd"));
    assert_eq!(parse_hex_color("éabcd"), None);
}

#[test]
fn color_is_off_when_disabled() {
    assert!(use_color(true, false, None));
    assert!(use_color(true, false, Some("always")));
    assert!(!use_color(true, true, None));
    assert!(!use_color(true, false, Some("never")));
}

fn without_escapes(s: &str) -> String {
    let mut out = String::new();
    let mut in_escape = false;
    for c in s.chars() {
        if in_escape {
            in_escape = c != 'm';
        } else if c == '\x1b' {
            in_escape = true;
        } else {
            out.push(c);
        }
    }
    out
}

#[test]
fn color_only_adds_escape_sequences() {
    for tokens in [None, Some(7)] {
        let response = AgentResponse {
            text: "two\nlines".to_string(),
            total_tokens: tokens,
        };
        assert_eq!(
            without_escapes(&format_response(&response, true, Some("8a2be2"))),
            format_response(&response, false, None)
        );
    }
}
