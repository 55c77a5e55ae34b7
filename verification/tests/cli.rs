use our_cli::{run, Action, CliError, Command};

fn words(ws: &[&str]) -> Vec<String> {
    ws.iter().map(|w| w.to_string()).collect()
}

#[test]
fn subcommands_are_dispatched() {
    assert_eq!(run(Some(Command::Chat), &words(&[])), Ok(Action::Chat));
    assert_eq!(run(Some(Command::History), &words(&[])), Ok(Action::History));
    assert_eq!(run(Some(Command::Reset), &words(&[])), Ok(Action::Reset));
}

#[test]
fn prompt_words_are_joined_and_trimmed() {
    assert_eq!(
        run(None, &words(&["explain", "Rust ownership", " "])),
        Ok(Action::Prompt("explain Rust ownership".to_string()))
    );
}

#[test]
fn missing_prompt_is_an_error() {
    assert_eq!(run(None, &words(&[])), Err(CliError::NoPrompt));
    assert_eq!(run(None, &words(&["  ", ""])), Err(CliError::NoPrompt));
    assert_eq!(
        CliError::NoPrompt.describe(),
        "No prompt provided. Try: our-cli \"explain ownership simply\""
    );
}
