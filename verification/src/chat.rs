//! Reading chat messages: lines typed or piped in are gathered until a blank line sends
//! them; `/exit` or `/quit` as the first line ends the chat.
use vstd::prelude::*;
use vstd::utf8::{
    decode_utf8, encode_scalar, encode_utf8, last_continuation_byte, leading_byte_width_1,
    leading_byte_width_2, leading_byte_width_3, leading_byte_width_4,
    second_last_continuation_byte, third_last_continuation_byte, valid_utf8,
};
use crate::output::{
    color_sequence, color_sequence_spec, opt_view, setting_parses_safely, sgr_reset,
    DEFAULT_PROMPT_COLOR,
};
use crate::text::{
    chars_are_blank, chars_eq, chars_of, is_blank, is_line_break, join_lines, join_strings, push_char, push_chars,
    push_str, strip_end_by, trim, trim_end_index, trim_start_index,
};

verus! {

/// The prompt the line editor shows.
pub const CHAT_EDITOR_PROMPT: &'static str = "> ";

/// What reading one chat message gave.
#[derive(Debug, PartialEq, Eq)]
pub enum ChatInput {
    /// The lines of a message, joined by `\n`.
    Message(String),
    /// The user asked to leave the chat.
    Exit,
    /// The input ended before any line of a message.
    Eof,
}

/// A `ChatInput` with the message as a sequence of characters.
pub enum ChatInputView {
    Message(Seq<char>),
    Exit,
    Eof,
}

impl View for ChatInput {
    type V = ChatInputView;

    open spec fn view(&self) -> ChatInputView {
        match self {
            ChatInput::Message(m) => ChatInputView::Message(m@),
            ChatInput::Exit => ChatInputView::Exit,
            ChatInput::Eof => ChatInputView::Eof,
        }
    }
}

/// Why reading a chat message failed.
#[derive(Debug, PartialEq, Eq)]
pub enum ChatReadError {
    /// A line of input was not valid UTF-8.
    InvalidUtf8,
}

pub open spec fn exit_word() -> Seq<char> {
    seq!['/', 'e', 'x', 'i', 't']
}

pub open spec fn quit_word() -> Seq<char> {
    seq!['/', 'q', 'u', 'i', 't']
}

/// `/exit` or `/quit`, with any surrounding whitespace.
pub open spec fn is_exit(s: Seq<char>) -> bool {
    trim(s) == exit_word() || trim(s) == quit_word()
}

/// A line as read, without its trailing carriage returns and line feeds.
pub open spec fn line_content(raw: Seq<char>) -> Seq<char> {
    strip_end_by(raw, |c: char| is_line_break(c))
}

/// One step of reading a message: `lines` were gathered so far and `raw` is the next line
/// read (`None` when the input has ended). Gives the lines gathered after it, and the
/// result once the message is complete.
pub open spec fn read_step(lines: Seq<Seq<char>>, raw: Option<Seq<char>>) -> (
    Seq<Seq<char>>,
    Option<ChatInputView>,
) {
    match raw {
        None => (
            lines,
            Some(
                if lines.len() == 0 {
                    ChatInputView::Eof
                } else {
                    ChatInputView::Message(join_lines(lines))
                },
            ),
        ),
        Some(r) => {
            let line = line_content(r);
            if lines.len() == 0 && is_exit(line) {
                (lines, Some(ChatInputView::Exit))
            } else if line.len() == 0 {
                if lines.len() == 0 {
                    (lines, None)
                } else {
                    (lines, Some(ChatInputView::Message(join_lines(lines))))
                }
            } else {
                (lines.push(line), None)
            }
        },
    }
}

/// The number of bytes that `BufRead::read_line` takes: through the first line feed,
/// or all of them.
pub open spec fn line_len(b: Seq<u8>) -> nat
    decreases b.len(),
{
    if b.len() == 0 {
        0
    } else if b[0] == 10 {
        1
    } else {
        1 + line_len(b.drop_first())
    }
}

/// Reading a message from `bytes` when `lines` were already gathered: the result (an error
/// when a line is not valid UTF-8) and the bytes left unread.
pub open spec fn read_message(lines: Seq<Seq<char>>, bytes: Seq<u8>) -> (
    Result<ChatInputView, ChatReadError>,
    Seq<u8>,
)
    decreases bytes.len(),
{
    if bytes.len() == 0 {
        match read_step(lines, None).1 {
            Some(r) => (Ok(r), bytes),
            None => (Ok(ChatInputView::Eof), bytes),
        }
    } else {
        let n = line_len(bytes);
        let piece = bytes.take(n as int);
        let rest = bytes.skip(n as int);
        if !valid_utf8(piece) {
            (Err(ChatReadError::InvalidUtf8), rest)
        } else {
            let (next, done) = read_step(lines, Some(decode_utf8(piece)));
            match done {
                Some(r) => (Ok(r), rest),
                None => if 0 < n <= bytes.len() {
                    read_message(next, rest)
                } else {
                    (Ok(ChatInputView::Eof), rest)
                },
            }
        }
    }
}

/// The chat message result as seen through `View`.
pub open spec fn result_view(r: Result<ChatInput, ChatReadError>) -> Result<
    ChatInputView,
    ChatReadError,
> {
    match r {
        Ok(i) => Ok(i@),
        Err(e) => Err(e),
    }
}

/// Whether the editor's input is valid to send.
pub enum EditorValidation {
    /// The input can be sent.
    Valid,
    /// The input cannot be sent; the message says why.
    Invalid(String),
}

/// `Enter a message, or type /exit to quit.` and a line break.
pub open spec fn empty_input_notice() -> Seq<char> {
    seq![
        'E', 'n', 't', 'e', 'r', ' ', 'a', ' ', 'm', 'e', 's', 's', 'a', 'g', 'e', ',', ' ', 'o',
        'r', ' ', 't', 'y', 'p', 'e', ' ', '/', 'e', 'x', 'i', 't', ' ', 't', 'o', ' ', 'q', 'u',
        'i', 't', '.', '\n',
    ]
}

/// Replaces each `\r\n` by `\n`, scanning from the left.
pub open spec fn replace_crlf(s: Seq<char>) -> Seq<char>
    decreases s.len(),
{
    if s.len() >= 2 && s[0] == '\r' && s[1] == '\n' {
        seq!['\n'] + replace_crlf(s.skip(2))
    } else if s.len() > 0 {
        seq![s[0]] + replace_crlf(s.drop_first())
    } else {
        seq![]
    }
}

/// The editor's input as a message: `\r\n` made `\n`, trailing line breaks removed.
pub open spec fn normalized_input(s: Seq<char>) -> Seq<char> {
    line_content(replace_crlf(s))
}

/// The `/exit` or `/quit` check on a line, ignoring surrounding whitespace.
pub fn is_exit_command(input: &str) -> (r: bool)
    ensures
        r == is_exit(input@),
{
    let v = chars_of(input);
    let lo = trim_start_index(v.as_slice(), v.len());
    let hi = trim_end_index(v.as_slice(), lo, v.len());
    let exit = ['/', 'e', 'x', 'i', 't'];
    let quit = ['/', 'q', 'u', 'i', 't'];
    proof {
        assert(v@.subrange(0, v@.len() as int) =~= v@);
        assert(exit@ =~= exit_word());
        assert(quit@ =~= quit_word());
    }
    chars_eq(v.as_slice(), lo, hi, exit.as_slice()) || chars_eq(v.as_slice(), lo, hi, quit.as_slice())
}

/// The end of `v[..hi]` once its trailing carriage returns and line feeds are removed.
fn strip_line_breaks_end(v: &[char], hi: usize) -> (k: usize)
    requires
        hi <= v@.len(),
    ensures
        k <= hi,
        line_content(v@.subrange(0, hi as int)) == v@.subrange(0, k as int),
{
    let mut k = hi;
    while k > 0 && (v[k - 1] == '\r' || v[k - 1] == '\n')
        invariant
            k <= hi <= v@.len(),
            line_content(v@.subrange(0, hi as int)) == line_content(v@.subrange(0, k as int)),
        decreases k,
    {
        assert(v@.subrange(0, k as int).drop_last() =~= v@.subrange(0, k - 1));
        k -= 1;
    }
    k
}

/// The editor's input as a message: `\r\n` line endings made `\n`, trailing carriage
/// returns and line feeds removed.
pub fn normalize_chat_editor_input(input: &str) -> (r: String)
    ensures
        r@ == normalized_input(input@),
{
    let v = chars_of(input);
    let mut w: Vec<char> = Vec::new();
    let mut i: usize = 0;
    assert(v@.skip(0) =~= v@);
    assert(w@ + replace_crlf(v@) =~= replace_crlf(v@));
    while i < v.len()
        invariant
            i <= v@.len(),
            replace_crlf(v@) == w@ + replace_crlf(v@.skip(i as int)),
        decreases v.len() - i,
    {
        let ghost s = v@.skip(i as int);
        if i + 1 < v.len() && v[i] == '\r' && v[i + 1] == '\n' {
            w.push('\n');
            assert(s.skip(2) =~= v@.skip(i + 2));
            i += 2;
        } else {
            w.push(v[i]);
            assert(s.drop_first() =~= v@.skip(i + 1));
            i += 1;
        }
    }
    proof {
        assert(v@.skip(i as int) =~= Seq::<char>::empty());
        assert(w@ + Seq::<char>::empty() =~= w@);
    }
    let k = strip_line_breaks_end(w.as_slice(), w.len());
    proof {
        assert(w@.subrange(0, w@.len() as int) =~= w@);
    }
    let mut r = String::new();
    push_chars(&mut r, w.as_slice(), 0, k);
    r
}

/// Whether the editor may send its input: anything but an input that is blank once
/// normalized.
pub fn validate_chat_editor_input(input: &str) -> (r: EditorValidation)
    ensures
        r is Invalid <==> is_blank(normalized_input(input@)),
        r matches EditorValidation::Invalid(m) ==> m@ == empty_input_notice(),
{
    let normalized = normalize_chat_editor_input(input);
    let v = chars_of(normalized.as_str());
    if chars_are_blank(v.as_slice()) {
        let notice = [
            'E', 'n', 't', 'e', 'r', ' ', 'a', ' ', 'm', 'e', 's', 's', 'a', 'g', 'e', ',', ' ',
            'o', 'r', ' ', 't', 'y', 'p', 'e', ' ', '/', 'e', 'x', 'i', 't', ' ', 't', 'o', ' ',
            'q', 'u', 'i', 't', '.', '\n',
        ];
        let mut m = String::new();
        push_chars(&mut m, notice.as_slice(), 0, notice.len());
        assert(notice@.subrange(0, 40) =~= empty_input_notice());
        EditorValidation::Invalid(m)
    } else {
        EditorValidation::Valid
    }
}

/// A chat message being gathered line by line.
pub struct ChatMessageReader {
    lines: Vec<String>,
}

impl View for ChatMessageReader {
    type V = Seq<Seq<char>>;

    closed spec fn view(&self) -> Seq<Seq<char>> {
        self.lines@.map_values(|l: String| l@)
    }
}

impl ChatMessageReader {
    /// A reader that has gathered nothing yet.
    pub fn new() -> (r: Self)
        ensures
            r@ == Seq::<Seq<char>>::empty(),
    {
        let r = ChatMessageReader { lines: Vec::new() };
        assert(r@ =~= Seq::<Seq<char>>::empty());
        r
    }

    /// Whether the next line read is the first line of the message (its prompt is `> `).
    pub fn is_first_line(&self) -> (r: bool)
        ensures
            r == (self@.len() == 0),
    {
        self.lines.len() == 0
    }

    /// Takes the next line read (`None` when the input has ended) and gives the message
    /// once it is complete.
    pub fn feed(&mut self, raw: Option<&str>) -> (r: Option<ChatInput>)
        ensures
            (final(self)@, match r {
                Some(i) => Some(i@),
                None => None,
            }) == read_step(old(self)@, opt_view(raw)),
    {
        match raw {
            None => {
                if self.lines.len() == 0 {
                    Some(ChatInput::Eof)
                } else {
                    Some(ChatInput::Message(join_strings(&self.lines)))
                }
            },
            Some(text) => {
                let v = chars_of(text);
                let end = strip_line_breaks_end(v.as_slice(), v.len());
                proof {
                    assert(v@.subrange(0, v@.len() as int) =~= v@);
                }
                let line = string_of_prefix(v.as_slice(), end);
                if self.lines.len() == 0 && is_exit_command(line.as_str()) {
                    Some(ChatInput::Exit)
                } else if end == 0 {
                    if self.lines.len() == 0 {
                        None
                    } else {
                        Some(ChatInput::Message(join_strings(&self.lines)))
                    }
                } else {
                    let ghost before = self@;
                    self.lines.push(line);
                    assert(self@ =~= before.push(v@.subrange(0, end as int)));
                    None
                }
            },
        }
    }
}

fn string_of_prefix(v: &[char], end: usize) -> (s: String)
    requires
        end <= v@.len(),
    ensures
        s@ == v@.subrange(0, end as int),
{
    let mut s = String::new();
    push_chars(&mut s, v, 0, end);
    s
}

/// Decodes UTF-8 text with `std::str::from_utf8`. Trusted: that it succeeds exactly on valid
/// UTF-8 and then gives the characters the bytes encode, as its documentation states.
#[verifier::external_body]
fn utf8_text(bytes: &[u8]) -> (r: Option<&str>)
    ensures
        r is Some <==> valid_utf8(bytes@),
        r matches Some(s) ==> s@ == decode_utf8(bytes@),
{
    std::str::from_utf8(bytes).ok()
}

/// The number of bytes `BufRead::read_line` takes from `b`.
fn next_line_len(b: &[u8]) -> (n: usize)
    ensures
        n == line_len(b@),
        b@.len() > 0 ==> n > 0,
        n <= b@.len(),
{
    let mut i: usize = 0;
    assert(b@.skip(0) =~= b@);
    while i < b.len() && b[i] != 10
        invariant
            i <= b@.len(),
            line_len(b@) == i + line_len(b@.skip(i as int)),
        decreases b.len() - i,
    {
        assert(b@.skip(i as int).drop_first() =~= b@.skip(i + 1));
        i += 1;
    }
    if i < b.len() {
        i + 1
    } else {
        assert(b@.skip(i as int) =~= Seq::<u8>::empty());
        i
    }
}

/// Reads one chat message from in-memory input: lines up to a blank line that sends them,
/// skipping blank lines before the first; `/exit` or `/quit` as the first line ends the
/// chat; the end of input sends what was gathered, or reports the end when nothing was.
/// Consumes the lines it read, as `BufRead::read_line` does.
pub fn read_chat_message_inner(reader: &mut &[u8]) -> (r: Result<ChatInput, ChatReadError>)
    ensures
        (result_view(r), final(reader)@) == read_message(Seq::empty(), old(reader)@),
{
    let mut state = ChatMessageReader::new();
    loop
        invariant
            read_message(Seq::empty(), old(reader)@) == read_message(state@, reader@),
        decreases reader@.len(),
    {
        let bytes: &[u8] = *reader;
        if bytes.len() == 0 {
            let r = state.feed(None);
            match r {
                Some(input) => {
                    return Ok(input);
                },
                None => {
                    return Ok(ChatInput::Eof);
                },
            }
        }
        let n = next_line_len(bytes);
        let piece = &bytes[0..n];
        *reader = &bytes[n..bytes.len()];
        proof {
            assert(piece@ =~= bytes@.take(n as int));
            assert(reader@ =~= bytes@.skip(n as int));
        }
        match utf8_text(piece) {
            None => {
                return Err(ChatReadError::InvalidUtf8);
            },
            Some(text) => {
                match state.feed(Some(text)) {
                    Some(input) => {
                        return Ok(input);
                    },
                    None => {},
                }
            },
        }
    }
}

/// The line editor's helper: the colours of its prompt and of typed input, when the
/// terminal shows colour.
pub struct MultilineHelper {
    pub input_color: Option<String>,
    pub colored_prompt: Option<String>,
}

/// `> `
pub open spec fn editor_prompt() -> Seq<char> {
    seq!['>', ' ']
}

impl MultilineHelper {
    /// A helper that colours the prompt and input when `color` is set, with the configured
    /// prompt colour `prompt_color` (if any).
    pub fn new(color: bool, prompt_color: Option<&str>) -> (h: Self)
        requires
            color ==> setting_parses_safely(opt_view(prompt_color)),
        ensures
            color ==> (h.input_color matches Some(c) && c@ == color_sequence_spec(
                opt_view(prompt_color),
                DEFAULT_PROMPT_COLOR@,
            )),
            color ==> (h.colored_prompt matches Some(p) && p@ == color_sequence_spec(
                opt_view(prompt_color),
                DEFAULT_PROMPT_COLOR@,
            ) + editor_prompt() + sgr_reset()),
            !color ==> h.input_color is None && h.colored_prompt is None,
    {
        if color {
            proof {
                crate::output::lemma_default_colors();
            }
            let input_color = color_sequence(prompt_color, DEFAULT_PROMPT_COLOR);
            let mut colored_prompt = input_color.clone();
            push_char(&mut colored_prompt, '>');
            push_char(&mut colored_prompt, ' ');
            push_char(&mut colored_prompt, '\x1b');
            push_char(&mut colored_prompt, '[');
            push_char(&mut colored_prompt, '0');
            push_char(&mut colored_prompt, 'm');
            assert(colored_prompt@ =~= input_color@ + editor_prompt() + sgr_reset());
            MultilineHelper { input_color: Some(input_color), colored_prompt: Some(colored_prompt) }
        } else {
            MultilineHelper { input_color: None, colored_prompt: None }
        }
    }

    /// The prompt as shown: the coloured prompt when the editor shows its default prompt
    /// and colour is on, else `prompt` itself.
    pub fn highlight_prompt(&self, prompt: &str, default: bool) -> (r: String)
        ensures
            r@ == (match self.colored_prompt {
                Some(p) if default => p@,
                _ => prompt@,
            }),
    {
        if default {
            match &self.colored_prompt {
                Some(p) => {
                    return p.clone();
                },
                None => {},
            }
        }
        prompt.to_owned()
    }

    /// The typed line as shown: in the input colour, then reset, when colour is on.
    pub fn highlight(&self, line: &str, _pos: usize) -> (r: String)
        ensures
            r@ == (match self.input_color {
                Some(c) => c@ + line@ + sgr_reset(),
                None => line@,
            }),
    {
        match &self.input_color {
            Some(c) => {
                let mut s = c.clone();
                push_str(&mut s, line);
                push_char(&mut s, '\x1b');
                push_char(&mut s, '[');
                push_char(&mut s, '0');
                push_char(&mut s, 'm');
                assert(s@ =~= c@ + line@ + sgr_reset());
                s
            },
            None => line.to_owned(),
        }
    }
}


/// A line as typed: not empty, without line feeds, and not ending in a carriage return.
pub open spec fn typed_line(l: Seq<char>) -> bool {
    &&& l.len() > 0
    &&& forall|i: int| 0 <= i < l.len() ==> #[trigger] l[i] != '\n'
    &&& l.last() != '\r'
}

/// The lines `ls`, each followed by a line feed.
pub open spec fn ended_lines(ls: Seq<Seq<char>>) -> Seq<char>
    decreases ls.len(),
{
    if ls.len() == 0 {
        seq![]
    } else {
        ls[0] + seq!['\n'] + ended_lines(ls.drop_first())
    }
}

proof fn lemma_encode_concat(a: Seq<char>, b: Seq<char>)
    ensures
        encode_utf8(a + b) == encode_utf8(a) + encode_utf8(b),
    decreases a.len(),
{
    if a.len() == 0 {
        assert(a + b =~= b);
        assert(encode_utf8(a) + encode_utf8(b) =~= encode_utf8(b));
    } else {
        assert((a + b).drop_first() =~= a.drop_first() + b);
        assert((a + b)[0] == a[0]);
        lemma_encode_concat(a.drop_first(), b);
        assert(encode_utf8(a + b) =~= encode_scalar(a[0] as u32) + (encode_utf8(a.drop_first())
            + encode_utf8(b)));
    }
}

proof fn lemma_scalar_no_line_feed(v: u32)
    requires
        v != 10,
    ensures
        forall|i: int| 0 <= i < encode_scalar(v).len() ==> #[trigger] encode_scalar(v)[i] != 10,
{
    let lead1 = leading_byte_width_1(v);
    let lead2 = leading_byte_width_2(v);
    let lead3 = leading_byte_width_3(v);
    let lead4 = leading_byte_width_4(v);
    let c1 = last_continuation_byte(v);
    let c2 = second_last_continuation_byte(v);
    let c3 = third_last_continuation_byte(v);
    assert(v <= 0x7f && v != 10 ==> (v & 0x7f) as u8 != 10u8) by (bit_vector);
    assert(0xC0u8 | ((v >> 6) & 0x1F) as u8 != 10u8) by (bit_vector);
    assert(0xE0u8 | ((v >> 12) & 0x0F) as u8 != 10u8) by (bit_vector);
    assert(0xF0u8 | ((v >> 18) & 0x7) as u8 != 10u8) by (bit_vector);
    assert(0x80u8 | (v & 0x3F) as u8 != 10u8) by (bit_vector);
    assert(0x80u8 | ((v >> 6) & 0x3F) as u8 != 10u8) by (bit_vector);
    assert(0x80u8 | ((v >> 12) & 0x3F) as u8 != 10u8) by (bit_vector);
}

proof fn lemma_encode_no_line_feed(x: Seq<char>)
    requires
        forall|i: int| 0 <= i < x.len() ==> #[trigger] x[i] != '\n',
    ensures
        forall|i: int| 0 <= i < encode_utf8(x).len() ==> #[trigger] encode_utf8(x)[i] != 10,
    decreases x.len(),
{
    if x.len() > 0 {
        assert(x[0] != '\n');
        vstd::utf8::char_u32_cast(x[0], x[0] as u32);
        assert(('\n' as u32) == 10);
        assert((x[0] as u32) != 10);
        lemma_scalar_no_line_feed(x[0] as u32);
        lemma_encode_no_line_feed(x.drop_first());
        let head = encode_scalar(x[0] as u32);
        let rest = encode_utf8(x.drop_first());
        assert forall|i: int| 0 <= i < encode_utf8(x).len() implies #[trigger] encode_utf8(x)[i]
            != 10 by {
            if i < head.len() {
                assert(encode_utf8(x)[i] == head[i]);
            } else {
                assert(encode_utf8(x)[i] == rest[i - head.len()]);
            }
        }
    }
}

proof fn lemma_line_len_through(b: Seq<u8>, t: Seq<u8>)
    requires
        forall|i: int| 0 <= i < b.len() ==> #[trigger] b[i] != 10,
    ensures
        line_len(b + seq![10u8] + t) == b.len() + 1,
    decreases b.len(),
{
    let s = b + seq![10u8] + t;
    if b.len() == 0 {
        assert(s[0] == 10);
    } else {
        assert(s[0] == b[0]);
        assert(s.drop_first() =~= b.drop_first() + seq![10u8] + t);
        lemma_line_len_through(b.drop_first(), t);
    }
}

/// A line feed is encoded as the single byte 10.
proof fn lemma_encode_line_feed()
    ensures
        encode_utf8(seq!['\n']) == seq![10u8],
{
    reveal_with_fuel(encode_utf8, 2);
    assert(encode_utf8(seq!['\n']) =~= seq![10u8]) by {
        assert(encode_scalar('\n' as u32) =~= seq![10u8]) by {
            assert(('\n' as u32) == 10u32);
            assert(10u32 & 0x7f == 10u32) by (bit_vector);
        }
        assert(seq!['\n'].drop_first() =~= Seq::<char>::empty());
    }
}

/// Reading the bytes of one line `x` (ended by a line feed) from the front of the input.
proof fn lemma_read_one_line(lines: Seq<Seq<char>>, x: Seq<char>, tail: Seq<u8>)
    requires
        forall|i: int| 0 <= i < x.len() ==> #[trigger] x[i] != '\n',
    ensures
        ({
            let bytes = encode_utf8(x + seq!['\n']) + tail;
            let (next, done) = read_step(lines, Some(x + seq!['\n']));
            read_message(lines, bytes) == match done {
                Some(r) => (Ok::<ChatInputView, ChatReadError>(r), tail),
                None => read_message(next, tail),
            }
        }),
{
    broadcast use vstd::utf8::encode_utf8_valid_utf8, vstd::utf8::encode_utf8_decode_utf8;

    let e = encode_utf8(x);
    lemma_encode_concat(x, seq!['\n']);
    lemma_encode_line_feed();
    let piece = encode_utf8(x + seq!['\n']);
    assert(piece =~= e + seq![10u8]);
    let bytes = piece + tail;
    lemma_encode_no_line_feed(x);
    lemma_line_len_through(e, tail);
    assert(bytes =~= e + seq![10u8] + tail);
    assert(bytes.take(line_len(bytes) as int) =~= piece);
    assert(bytes.skip(line_len(bytes) as int) =~= tail);
}

/// Reading typed lines from the front of the input gathers them, in order.
proof fn lemma_read_typed_lines(lines: Seq<Seq<char>>, ls: Seq<Seq<char>>, tail: Seq<u8>)
    requires
        forall|k: int| 0 <= k < ls.len() ==> typed_line(#[trigger] ls[k]),
        lines.len() == 0 && ls.len() > 0 ==> !is_exit(ls[0]),
    ensures
        read_message(lines, encode_utf8(ended_lines(ls)) + tail) == read_message(lines + ls, tail),
    decreases ls.len(),
{
    if ls.len() == 0 {
        assert(encode_utf8(ended_lines(ls)) + tail =~= tail);
        assert(lines + ls =~= lines);
    } else {
        let x = ls[0];
        let rest = ls.drop_first();
        assert(typed_line(x));
        lemma_encode_concat(x + seq!['\n'], ended_lines(rest));
        assert(ended_lines(ls) == x + seq!['\n'] + ended_lines(rest));
        let rest_bytes = encode_utf8(ended_lines(rest)) + tail;
        assert(encode_utf8(ended_lines(ls)) + tail =~= encode_utf8(x + seq!['\n']) + rest_bytes);
        lemma_read_one_line(lines, x, rest_bytes);
        let raw = x + seq!['\n'];
        assert(raw.drop_last() =~= x);
        assert(line_content(raw) == line_content(x));
        assert(line_content(x) == x);
        assert forall|k: int| 0 <= k < rest.len() implies typed_line(#[trigger] rest[k]) by {
            assert(rest[k] == ls[k + 1]);
        }
        lemma_read_typed_lines(lines.push(x), rest, tail);
        assert(lines.push(x) + rest =~= lines + ls);
    }
}

/// Lines typed one after another, then a blank line, are read as one message: the lines
/// joined by `\n`. The input after the blank line is left for the next message.
pub proof fn lemma_typed_message_is_sent(ls: Seq<Seq<char>>, tail: Seq<u8>)
    requires
        ls.len() > 0,
        forall|k: int| 0 <= k < ls.len() ==> typed_line(#[trigger] ls[k]),
        !is_exit(ls[0]),
    ensures
        read_message(Seq::empty(), encode_utf8(ended_lines(ls) + seq!['\n']) + tail) == (
            Ok::<ChatInputView, ChatReadError>(ChatInputView::Message(join_lines(ls))),
            tail,
        ),
{
    lemma_encode_concat(ended_lines(ls), seq!['\n']);
    let blank = encode_utf8(seq!['\n']);
    assert(encode_utf8(ended_lines(ls) + seq!['\n']) + tail =~= encode_utf8(ended_lines(ls)) + (
    blank + tail));
    lemma_read_typed_lines(Seq::empty(), ls, blank + tail);
    assert(Seq::<Seq<char>>::empty() + ls =~= ls);
    lemma_read_one_line(ls, Seq::empty(), tail);
    assert(Seq::<char>::empty() + seq!['\n'] =~= seq!['\n']);
    assert(line_content(seq!['\n']) == line_content(Seq::<char>::empty())) by {
        assert(seq!['\n'].drop_last() =~= Seq::<char>::empty());
    }
}

/// Typed lines that the input ends after, with no blank line, are still read as one message.
pub proof fn lemma_message_sent_at_end_of_input(ls: Seq<Seq<char>>)
    requires
        ls.len() > 0,
        forall|k: int| 0 <= k < ls.len() ==> typed_line(#[trigger] ls[k]),
        !is_exit(ls[0]),
    ensures
        read_message(Seq::empty(), encode_utf8(ended_lines(ls))) == (
            Ok::<ChatInputView, ChatReadError>(ChatInputView::Message(join_lines(ls))),
            Seq::<u8>::empty(),
        ),
{
    lemma_read_typed_lines(Seq::empty(), ls, Seq::empty());
    assert(encode_utf8(ended_lines(ls)) + Seq::<u8>::empty() =~= encode_utf8(ended_lines(ls)));
    assert(Seq::<Seq<char>>::empty() + ls =~= ls);
}

/// `/exit` or `/quit` as the first line ends the chat, whatever follows it.
pub proof fn lemma_exit_line_leaves(x: Seq<char>, tail: Seq<u8>)
    requires
        forall|i: int| 0 <= i < x.len() ==> #[trigger] x[i] != '\n',
        is_exit(line_content(x + seq!['\n'])),
    ensures
        read_message(Seq::empty(), encode_utf8(x + seq!['\n']) + tail) == (
            Ok::<ChatInputView, ChatReadError>(ChatInputView::Exit),
            tail,
        ),
{
    lemma_read_one_line(Seq::empty(), x, tail);
}

/// Blank lines before the first line of a message are skipped.
pub proof fn lemma_leading_blank_line_skipped(tail: Seq<u8>)
    ensures
        read_message(Seq::empty(), seq![10u8] + tail) == read_message(Seq::empty(), tail),
{
    lemma_read_one_line(Seq::empty(), Seq::empty(), tail);
    assert(Seq::<char>::empty() + seq!['\n'] =~= seq!['\n']);
    lemma_encode_line_feed();
    assert(seq!['\n'].drop_last() =~= Seq::<char>::empty());
    assert(line_content(seq!['\n']) == line_content(Seq::<char>::empty()));
}

proof fn lemma_replace_crlf_without_cr(s: Seq<char>)
    requires
        forall|i: int| 0 <= i < s.len() ==> #[trigger] s[i] != '\r',
    ensures
        replace_crlf(s) == s,
    decreases s.len(),
{
    if s.len() > 0 {
        assert(s[0] != '\r');
        assert forall|i: int| 0 <= i < s.drop_first().len() implies #[trigger] s.drop_first()[i]
            != '\r' by {
            assert(s.drop_first()[i] == s[i + 1]);
        }
        lemma_replace_crlf_without_cr(s.drop_first());
        assert(seq![s[0]] + s.drop_first() =~= s);
    }
}

proof fn lemma_strip_line_feeds(s: Seq<char>)
    requires
        forall|i: int| 0 <= i < s.len() ==> #[trigger] s[i] != '\r',
    ensures
        line_content(s).len() <= s.len(),
        line_content(s) == s.take(line_content(s).len() as int),
        forall|i: int| line_content(s).len() <= i < s.len() ==> #[trigger] s[i] == '\n',
        line_content(s).len() > 0 ==> line_content(s).last() != '\n',
    decreases s.len(),
{
    if s.len() > 0 && is_line_break(s.last()) {
        let init = s.drop_last();
        assert forall|i: int| 0 <= i < init.len() implies #[trigger] init[i] != '\r' by {
            assert(init[i] == s[i]);
        }
        lemma_strip_line_feeds(init);
        assert(line_content(s) == line_content(init));
        assert(s.last() != '\r');
        let r = line_content(init);
        assert(init.take(r.len() as int) =~= s.take(r.len() as int));
        assert forall|i: int| r.len() <= i < s.len() implies #[trigger] s[i] == '\n' by {
            if i < s.len() - 1 {
                assert(s[i] == init[i]);
            }
        }
    } else {
        assert(line_content(s) == s);
        assert(s.take(s.len() as int) =~= s);
    }
}

/// For input without carriage returns, the message sent is the input without its trailing
/// line feeds: a prefix of the input that keeps every other character, line feeds inside the
/// message included, and that does not end in a line feed.
pub proof fn lemma_normalize_strips_only_trailing_line_feeds(s: Seq<char>)
    requires
        forall|i: int| 0 <= i < s.len() ==> #[trigger] s[i] != '\r',
    ensures
        normalized_input(s).len() <= s.len(),
        normalized_input(s) == s.take(normalized_input(s).len() as int),
        forall|i: int| normalized_input(s).len() <= i < s.len() ==> #[trigger] s[i] == '\n',
        normalized_input(s).len() > 0 ==> normalized_input(s).last() != '\n',
{
    lemma_replace_crlf_without_cr(s);
    lemma_strip_line_feeds(s);
}

} // verus!
