//! A terminal assistant: it sends a prompt, with the remembered conversation, to an
//! OpenAI-compatible service, shows the answer, and remembers the exchange.
use vstd::prelude::*;

pub mod agent;
pub mod chat;
pub mod json;
pub mod memory;
pub mod number;
pub mod output;
pub mod text;

use crate::text::{
    chars_of, is_ws, push_char, push_str, string_of, trim, trim_end, trim_end_index, trim_start,
    trim_start_index,
};

verus! {

/// The subcommands.
#[derive(Debug, PartialEq, Eq, Clone, Copy)]
pub enum Command {
    /// Talk in a loop.
    Chat,
    /// Show the remembered conversation.
    History,
    /// Forget the conversation.
    Reset,
}

/// What a command line asks for.
#[derive(Debug, PartialEq, Eq)]
pub enum Action {
    Chat,
    History,
    Reset,
    /// Send this prompt.
    Prompt(String),
}

/// Why a command line cannot be run.
#[derive(Debug, PartialEq, Eq)]
pub enum CliError {
    /// No subcommand and no prompt words (or only whitespace).
    NoPrompt,
}

/// The words `ws` joined by single spaces.
pub open spec fn join_words(ws: Seq<Seq<char>>) -> Seq<char>
    decreases ws.len(),
{
    if ws.len() == 0 {
        seq![]
    } else if ws.len() == 1 {
        ws[0]
    } else {
        join_words(ws.drop_last()) + seq![' '] + ws.last()
    }
}

/// What the command line with subcommand `command` and prompt words `words` asks for.
pub open spec fn action_for(command: Option<Command>, words: Seq<Seq<char>>) -> Result<
    Seq<char>,
    CliError,
> {
    let message = trim(join_words(words));
    if message.len() == 0 {
        Err(CliError::NoPrompt)
    } else {
        Ok(message)
    }
}

impl CliError {
    /// The message shown for the error.
    pub fn describe(&self) -> (r: &'static str)
        ensures
            r@ == "No prompt provided. Try: our-cli \"explain ownership simply\""@,
    {
        "No prompt provided. Try: our-cli \"explain ownership simply\""
    }
}

/// Decides what a command line asks for: its subcommand, or else a prompt made of the
/// words given, joined by spaces and trimmed, which must not be empty.
pub fn run(command: Option<Command>, prompt: &Vec<String>) -> (r: Result<Action, CliError>)
    ensures
        command matches Some(c) ==> match c {
            Command::Chat => r == Ok::<Action, CliError>(Action::Chat),
            Command::History => r == Ok::<Action, CliError>(Action::History),
            Command::Reset => r == Ok::<Action, CliError>(Action::Reset),
        },
        command is None ==> match action_for(command, prompt@.map_values(|w: String| w@)) {
            Ok(m) => r matches Ok(Action::Prompt(p)) && p@ == m,
            Err(e) => r == Err::<Action, CliError>(e),
        },
{
    match command {
        Some(Command::Chat) => Ok(Action::Chat),
        Some(Command::History) => Ok(Action::History),
        Some(Command::Reset) => Ok(Action::Reset),
        None => {
            let joined = join_prompt_words(prompt);
            let v = chars_of(joined.as_str());
            let lo = trim_start_index(v.as_slice(), v.len());
            let hi = trim_end_index(v.as_slice(), lo, v.len());
            proof {
                assert(v@.subrange(0, v@.len() as int) =~= v@);
            }
            if lo == hi {
                Err(CliError::NoPrompt)
            } else {
                Ok(Action::Prompt(string_of(v.as_slice(), lo, hi)))
            }
        },
    }
}

fn join_prompt_words(words: &Vec<String>) -> (s: String)
    ensures
        s@ == join_words(words@.map_values(|w: String| w@)),
{
    let ghost ws = words@.map_values(|w: String| w@);
    let mut s = String::new();
    let mut k: usize = 0;
    while k < words.len()
        invariant
            k <= words@.len(),
            ws == words@.map_values(|w: String| w@),
            s@ == join_words(ws.take(k as int)),
        decreases words.len() - k,
    {
        if k > 0 {
            push_char(&mut s, ' ');
        }
        push_str(&mut s, words[k].as_str());
        proof {
            let taken = ws.take(k + 1);
            assert(taken.drop_last() =~= ws.take(k as int));
            if k == 0 {
                assert(s@ =~= taken[0]);
            } else {
                assert(s@ =~= join_words(taken.drop_last()) + seq![' '] + taken.last());
            }
        }
        k += 1;
    }
    assert(ws.take(words@.len() as int) =~= ws);
    s
}

/// The number of characters in all the words `ws` together.
pub open spec fn total_len(ws: Seq<Seq<char>>) -> nat
    decreases ws.len(),
{
    if ws.len() == 0 {
        0
    } else {
        total_len(ws.drop_last()) + ws.last().len()
    }
}

/// Where word `k` starts when the words are laid out with one character between each two.
pub open spec fn word_start(ws: Seq<Seq<char>>, k: int) -> int {
    total_len(ws.take(k)) + k
}

/// A word: at least one character, none of them whitespace.
pub open spec fn plain_word(w: Seq<char>) -> bool {
    w.len() > 0 && forall|i: int| 0 <= i < w.len() ==> !#[trigger] is_ws(w[i])
}

proof fn lemma_word_start_prefix(ws: Seq<Seq<char>>, k: int)
    requires
        0 <= k < ws.len(),
    ensures
        word_start(ws, k) == word_start(ws.drop_last(), k),
{
    assert(ws.take(k) =~= ws.drop_last().take(k));
}

proof fn lemma_word_start_last(ws: Seq<Seq<char>>)
    requires
        ws.len() >= 2,
    ensures
        word_start(ws.drop_last(), ws.len() - 2) + ws[ws.len() - 2].len() + 1 == word_start(
            ws,
            ws.len() - 1,
        ),
{
    let init = ws.drop_last();
    let k = ws.len() - 2;
    assert(init.take(k + 1) =~= init);
    assert(init.take(k + 1).drop_last() =~= init.take(k));
    assert(ws.take(k + 1) =~= init);
}

proof fn lemma_join_words_bounds(ws: Seq<Seq<char>>)
    requires
        ws.len() >= 1,
    ensures
        join_words(ws).len() == total_len(ws) + ws.len() - 1,
        join_words(ws).len() == word_start(ws, ws.len() - 1) + ws.last().len(),
        forall|k: int|
            0 <= k < ws.len() - 1 ==> word_start(ws, k) + #[trigger] ws[k].len() < join_words(
                ws,
            ).len(),
    decreases ws.len(),
{
    let n = ws.len();
    assert(ws.take(n as int) =~= ws);
    assert(ws.take(n as int).drop_last() =~= ws.take(n - 1));
    if n == 1 {
        assert(ws.drop_last() =~= Seq::<Seq<char>>::empty());
        assert(ws.take(0) =~= Seq::<Seq<char>>::empty());
    } else {
        let init = ws.drop_last();
        lemma_join_words_bounds(init);
        lemma_word_start_last(ws);
        assert(join_words(ws) == join_words(init) + seq![' '] + ws.last());
        assert forall|k: int| 0 <= k < n - 1 implies word_start(ws, k) + #[trigger] ws[k].len()
            < join_words(ws).len() by {
            lemma_word_start_prefix(ws, k);
            assert(ws[k] == init[k]);
        }
    }
}

proof fn lemma_join_words_chars(ws: Seq<Seq<char>>)
    requires
        ws.len() >= 1,
    ensures
        forall|k: int, j: int|
            0 <= k < ws.len() && 0 <= j < ws[k].len() ==> join_words(ws)[word_start(ws, k) + j]
                == #[trigger] ws[k][j],
    decreases ws.len(),
{
    let n = ws.len();
    lemma_join_words_bounds(ws);
    if n == 1 {
        assert(ws.take(0) =~= Seq::<Seq<char>>::empty());
    } else {
        let init = ws.drop_last();
        lemma_join_words_chars(init);
        lemma_join_words_bounds(init);
        let j0 = join_words(init);
        let whole = join_words(ws);
        assert(whole == j0 + seq![' '] + ws.last());
        lemma_word_start_last(ws);
        assert forall|k: int, j: int| 0 <= k < n && 0 <= j < ws[k].len() implies whole[word_start(
            ws,
            k,
        ) + j] == #[trigger] ws[k][j] by {
            if k < n - 1 {
                lemma_word_start_prefix(ws, k);
                assert(ws[k] == init[k]);
                if k < n - 2 {
                    assert(word_start(init, k) + init[k].len() < j0.len());
                }
                assert(j0[word_start(init, k) + j] == init[k][j]);
            } else {
                assert(ws[k] == ws.last());
            }
        }
    }
}

proof fn lemma_join_words_gaps(ws: Seq<Seq<char>>)
    requires
        ws.len() >= 1,
    ensures
        forall|k: int|
            0 <= k < ws.len() - 1 ==> join_words(ws)[word_start(ws, k) + #[trigger] ws[k].len()]
                == ' ',
    decreases ws.len(),
{
    let n = ws.len();
    if n >= 2 {
        let init = ws.drop_last();
        lemma_join_words_gaps(init);
        lemma_join_words_bounds(init);
        let j0 = join_words(init);
        let whole = join_words(ws);
        assert(whole == j0 + seq![' '] + ws.last());
        assert forall|k: int| 0 <= k < n - 1 implies whole[word_start(ws, k) + #[trigger] ws[k].len()]
            == ' ' by {
            lemma_word_start_prefix(ws, k);
            assert(ws[k] == init[k]);
            if k < n - 2 {
                assert(word_start(init, k) + init[k].len() < j0.len());
            }
        }
    }
}

/// The prompt of a command line with no subcommand is its words, in order, with exactly one
/// space between each two: for words that are not empty and hold no whitespace, its length is
/// the words' lengths plus one for each gap, each word stands at its place, and a space stands
/// in each gap.
pub proof fn lemma_prompt_is_words_spaced(ws: Seq<Seq<char>>)
    requires
        ws.len() >= 1,
        forall|k: int| 0 <= k < ws.len() ==> plain_word(#[trigger] ws[k]),
    ensures
        action_for(None, ws) matches Ok(p) && p.len() == total_len(ws) + ws.len() - 1 && (forall|
            k: int,
            j: int,
        | 0 <= k < ws.len() && 0 <= j < ws[k].len() ==> p[word_start(ws, k) + j]
            == #[trigger] ws[k][j]) && (forall|k: int|
            0 <= k < ws.len() - 1 ==> p[word_start(ws, k) + #[trigger] ws[k].len()] == ' '),
{
    lemma_join_words_bounds(ws);
    lemma_join_words_chars(ws);
    lemma_join_words_gaps(ws);
    let joined = join_words(ws);
    assert(plain_word(ws[0]));
    assert(word_start(ws, 0) == 0) by {
        assert(ws.take(0) =~= Seq::<Seq<char>>::empty());
    }
    assert(joined[0] == ws[0][0]);
    assert(!is_ws(joined[0]));
    let last = ws.len() - 1;
    assert(plain_word(ws[last]));
    assert(ws.take(last + 1) =~= ws);
    assert(ws.take(last + 1).drop_last() =~= ws.take(last));
    assert(word_start(ws, last) + ws[last].len() - 1 == joined.len() - 1);
    assert(joined[joined.len() - 1] == ws[last][ws[last].len() - 1]);
    assert(!is_ws(joined.last()));
    assert(trim_start(joined) == joined);
    assert(trim_end(joined) == joined);
}

} // verus!
