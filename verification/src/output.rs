//! Terminal colours and the text printed for responses and prompts.
use vstd::prelude::*;
use crate::agent::AgentResponse;
use crate::number::{
    dec_chars, hex_pair, hex_pair_value, is_hex_digit, lemma_dec_chars_digits, push_decimal,
};
use crate::text::{
    chars_eq, chars_of, is_ws, push_char, push_str, trim, trim_end, trim_end_index, trim_start,
    trim_start_index,
};

verus! {

/// Default colour of the chat prompt and of typed input.
pub const DEFAULT_PROMPT_COLOR: &'static str = "d8ae6dfc";

/// Default colour of assistant responses.
pub const DEFAULT_ASSISTANT_COLOR: &'static str = "00ffff";

/// Number of bytes of the UTF-8 encoding of `c`.
pub open spec fn utf8_width(c: char) -> nat {
    if (c as u32) < 0x80 {
        1
    } else if (c as u32) < 0x800 {
        2
    } else if (c as u32) < 0x10000 {
        3
    } else {
        4
    }
}

/// Number of bytes of the UTF-8 encoding of `s` (what `str::len` reports).
pub open spec fn utf8_len(s: Seq<char>) -> nat
    decreases s.len(),
{
    if s.len() == 0 {
        0
    } else {
        utf8_len(s.drop_last()) + utf8_width(s.last())
    }
}

/// `s` without its leading `c` characters (`str::trim_start_matches`).
pub open spec fn strip_start_char(s: Seq<char>, c: char) -> Seq<char>
    decreases s.len(),
{
    if s.len() > 0 && s[0] == c {
        strip_start_char(s.drop_first(), c)
    } else {
        s
    }
}

/// What reading one colour channel (the two bytes that start at character `k`) does.
pub enum HexField {
    /// The byte range ends inside a character: slicing the string panics.
    Panics,
    /// The two bytes are not a hexadecimal number.
    Invalid,
    /// The channel's value.
    Value(u8),
}

/// Reads the channel whose two bytes start at character `k` of `t`,
/// where every character before `k` is ASCII.
pub open spec fn hex_field(t: Seq<char>, k: int) -> HexField {
    if k >= t.len() || utf8_width(t[k]) >= 3 {
        HexField::Panics
    } else if utf8_width(t[k]) == 2 {
        HexField::Invalid
    } else if k + 1 >= t.len() || utf8_width(t[k + 1]) > 1 {
        HexField::Panics
    } else {
        match hex_pair_value(t[k], t[k + 1]) {
            Some(v) => HexField::Value(v),
            None => HexField::Invalid,
        }
    }
}

/// The part of a colour setting that holds the hex digits.
pub open spec fn hex_body(value: Seq<char>) -> Seq<char> {
    strip_start_char(trim(value), '#')
}

/// Whether parsing the colour setting `value` slices a string in the middle of a character,
/// which panics.
pub open spec fn hex_color_panics(value: Seq<char>) -> bool {
    let t = hex_body(value);
    &&& (utf8_len(t) == 6 || utf8_len(t) == 8)
    &&& match hex_field(t, 0) {
        HexField::Panics => true,
        HexField::Invalid => false,
        HexField::Value(_) => match hex_field(t, 2) {
            HexField::Panics => true,
            HexField::Invalid => false,
            HexField::Value(_) => hex_field(t, 4) is Panics,
        },
    }
}

/// The colour that the setting `value` spells: after trimming whitespace and leading `#`s,
/// six or eight bytes whose first three pairs are hexadecimal numbers (red, green, blue);
/// the last pair, an alpha channel, is not read.
pub open spec fn hex_color(value: Seq<char>) -> Option<(u8, u8, u8)> {
    let t = hex_body(value);
    if utf8_len(t) != 6 && utf8_len(t) != 8 {
        None
    } else {
        match (hex_field(t, 0), hex_field(t, 2), hex_field(t, 4)) {
            (HexField::Value(r), HexField::Value(g), HexField::Value(b)) => Some((r, g, b)),
            _ => None,
        }
    }
}

/// The colour used for a setting `value` with fallback setting `fallback`.
pub open spec fn resolved_color(value: Seq<char>, fallback: Seq<char>) -> (u8, u8, u8) {
    match hex_color(value) {
        Some(c) => c,
        None => match hex_color(fallback) {
            Some(c) => c,
            None => (255, 255, 255),
        },
    }
}

/// Whether resolving `value` against `fallback` panics.
pub open spec fn resolve_panics(value: Seq<char>, fallback: Seq<char>) -> bool {
    hex_color_panics(value) || (hex_color(value) is None && hex_color_panics(fallback))
}

/// The escape sequence that selects the 24-bit foreground colour `(r, g, b)`.
pub open spec fn sgr_color(rgb: (u8, u8, u8)) -> Seq<char> {
    seq!['\x1b', '[', '3', '8', ';', '2', ';'] + dec_chars(rgb.0 as nat) + seq![';'] + dec_chars(
        rgb.1 as nat,
    ) + seq![';'] + dec_chars(rgb.2 as nat) + seq!['m']
}

/// The setting in force: the configured one when present, else the fallback.
pub open spec fn setting_or(configured: Option<Seq<char>>, fallback: Seq<char>) -> Seq<char> {
    match configured {
        Some(v) => v,
        None => fallback,
    }
}

pub open spec fn opt_view(s: Option<&str>) -> Option<Seq<char>> {
    match s {
        Some(v) => Some(v@),
        None => None,
    }
}

/// The colour sequence for a configured setting (if any) with a fallback setting.
pub open spec fn color_sequence_spec(configured: Option<Seq<char>>, fallback: Seq<char>) -> Seq<
    char,
> {
    sgr_color(resolved_color(setting_or(configured, fallback), fallback))
}

pub open spec fn color_sequence_panics(configured: Option<Seq<char>>, fallback: Seq<char>) -> bool {
    resolve_panics(setting_or(configured, fallback), fallback)
}

/// A configured colour setting, if any, can be read without panicking.
pub open spec fn setting_parses_safely(configured: Option<Seq<char>>) -> bool {
    configured matches Some(v) ==> !hex_color_panics(v)
}

/// The escape sequence that resets all attributes.
pub open spec fn sgr_reset() -> Seq<char> {
    seq!['\x1b', '[', '0', 'm']
}

/// The text printed for a response.
pub open spec fn response_text(
    text: Seq<char>,
    total_tokens: Option<u64>,
    color: bool,
    assistant_color: Option<Seq<char>>,
) -> Seq<char> {
    let head = if color {
        color_sequence_spec(assistant_color, DEFAULT_ASSISTANT_COLOR@) + text + sgr_reset() + seq![
            '\n',
        ]
    } else {
        text + seq!['\n']
    };
    match total_tokens {
        Some(n) => if color {
            head + seq!['\n', '\x1b', '[', '2', 'm'] + tokens_label(n) + sgr_reset() + seq!['\n']
        } else {
            head + seq!['\n'] + tokens_label(n) + seq!['\n']
        },
        None => head,
    }
}

/// `[tokens: n]`.
pub open spec fn tokens_label(n: u64) -> Seq<char> {
    seq!['[', 't', 'o', 'k', 'e', 'n', 's', ':', ' '] + dec_chars(n as nat) + seq![']']
}

/// The marker that starts an input line: `> ` on the first line of a message, `| ` after.
pub open spec fn prompt_marker(first_line: bool) -> Seq<char> {
    if first_line {
        seq!['>', ' ']
    } else {
        seq!['|', ' ']
    }
}

/// The prompt printed before an input line.
pub open spec fn prompt_text(first_line: bool, color: bool, prompt_color: Option<Seq<char>>) -> Seq<
    char,
> {
    if color {
        color_sequence_spec(prompt_color, DEFAULT_PROMPT_COLOR@) + prompt_marker(first_line)
    } else {
        prompt_marker(first_line)
    }
}

/// Whether output is coloured: standard output is a terminal, `NO_COLOR` is unset and
/// `OUR_CLI_COLOR` is not `never`.
pub open spec fn color_enabled(
    stdout_is_terminal: bool,
    no_color_set: bool,
    color_setting: Option<Seq<char>>,
) -> bool {
    stdout_is_terminal && !no_color_set && color_setting != Some(seq!['n', 'e', 'v', 'e', 'r'])
}

fn utf8_width_of(c: char) -> (w: usize)
    ensures
        w == utf8_width(c),
{
    if (c as u32) < 0x80 {
        1
    } else if (c as u32) < 0x800 {
        2
    } else if (c as u32) < 0x10000 {
        3
    } else {
        4
    }
}

/// The byte length of `v[lo..hi]` when it is at most `cap`, else some value above `cap`.
fn utf8_len_capped(v: &[char], lo: usize, hi: usize, cap: usize) -> (n: usize)
    requires
        lo <= hi <= v@.len(),
        cap < usize::MAX - 4,
    ensures
        n <= cap ==> n == utf8_len(v@.subrange(lo as int, hi as int)),
        n > cap ==> utf8_len(v@.subrange(lo as int, hi as int)) > cap,
{
    let mut n: usize = 0;
    let mut i = lo;
    while i < hi
        invariant
            lo <= i <= hi <= v@.len(),
            cap < usize::MAX - 4,
            n <= cap,
            n == utf8_len(v@.subrange(lo as int, i as int)),
        decreases hi - i,
    {
        assert(v@.subrange(lo as int, i + 1).drop_last() =~= v@.subrange(lo as int, i as int));
        n = n + utf8_width_of(v[i]);
        i += 1;
        if n > cap {
            proof {
                lemma_utf8_len_prefix(v@.subrange(lo as int, hi as int), i - lo);
                assert(v@.subrange(lo as int, hi as int).subrange(0, i - lo) =~= v@.subrange(
                    lo as int,
                    i as int,
                ));
            }
            return n;
        }
    }
    n
}

proof fn lemma_utf8_len_prefix(s: Seq<char>, k: int)
    requires
        0 <= k <= s.len(),
    ensures
        utf8_len(s.subrange(0, k)) <= utf8_len(s),
    decreases s.len() - k,
{
    if k < s.len() {
        lemma_utf8_len_prefix(s, k + 1);
        assert(s.subrange(0, k + 1).drop_last() =~= s.subrange(0, k));
    } else {
        assert(s.subrange(0, k) =~= s);
    }
}

/// Reads the channel whose two bytes start at character `k` of `t[lo..hi]`.
fn read_hex_field(v: &[char], lo: usize, hi: usize, k: usize) -> (r: HexField)
    requires
        lo <= hi <= v@.len(),
        k <= 4,
    ensures
        r == hex_field(v@.subrange(lo as int, hi as int), k as int),
{
    let ghost t = v@.subrange(lo as int, hi as int);
    if k >= hi - lo || utf8_width_of(v[lo + k]) >= 3 {
        HexField::Panics
    } else if utf8_width_of(v[lo + k]) == 2 {
        HexField::Invalid
    } else if k + 1 >= hi - lo || utf8_width_of(v[lo + k + 1]) > 1 {
        HexField::Panics
    } else {
        assert(t[k as int] == v@[lo + k]);
        assert(t[k + 1] == v@[lo + k + 1]);
        match hex_pair(v[lo + k], v[lo + k + 1]) {
            Some(b) => HexField::Value(b),
            None => HexField::Invalid,
        }
    }
}

/// The range of `v` that holds the hex digits of a colour setting.
fn hex_body_range(v: &[char]) -> (r: (usize, usize))
    ensures
        r.0 <= r.1 <= v@.len(),
        v@.subrange(r.0 as int, r.1 as int) == hex_body(v@),
{
    let lo0 = trim_start_index(v, v.len());
    let hi = trim_end_index(v, lo0, v.len());
    proof {
        assert(v@.subrange(0, v@.len() as int) =~= v@);
    }
    let mut lo = lo0;
    while lo < hi && v[lo] == '#'
        invariant
            lo0 <= lo <= hi <= v@.len(),
            strip_start_char(trim(v@), '#') == strip_start_char(v@.subrange(lo as int, hi as int), '#'),
        decreases hi - lo,
    {
        assert(v@.subrange(lo as int, hi as int).drop_first() =~= v@.subrange(lo + 1, hi as int));
        lo += 1;
    }
    (lo, hi)
}

/// Whether parsing the colour setting `value` would panic.
pub fn hex_color_would_panic(value: &str) -> (r: bool)
    ensures
        r == hex_color_panics(value@),
{
    let v = chars_of(value);
    let (lo, hi) = hex_body_range(v.as_slice());
    let n = utf8_len_capped(v.as_slice(), lo, hi, 8);
    if n != 6 && n != 8 {
        return false;
    }
    match read_hex_field(v.as_slice(), lo, hi, 0) {
        HexField::Panics => true,
        HexField::Invalid => false,
        HexField::Value(_) => match read_hex_field(v.as_slice(), lo, hi, 2) {
            HexField::Panics => true,
            HexField::Invalid => false,
            HexField::Value(_) => match read_hex_field(v.as_slice(), lo, hi, 4) {
                HexField::Panics => true,
                _ => false,
            },
        },
    }
}

/// Reads a colour setting such as `#b84367` or `b84367fc` as red, green and blue.
pub fn parse_hex_color(value: &str) -> (r: Option<(u8, u8, u8)>)
    requires
        !hex_color_panics(value@),
    ensures
        r == hex_color(value@),
{
    let v = chars_of(value);
    let (lo, hi) = hex_body_range(v.as_slice());
    let n = utf8_len_capped(v.as_slice(), lo, hi, 8);
    if n != 6 && n != 8 {
        return None;
    }
    let red = match read_hex_field(v.as_slice(), lo, hi, 0) {
        HexField::Value(x) => x,
        _ => return None,
    };
    let green = match read_hex_field(v.as_slice(), lo, hi, 2) {
        HexField::Value(x) => x,
        _ => return None,
    };
    let blue = match read_hex_field(v.as_slice(), lo, hi, 4) {
        HexField::Value(x) => x,
        _ => return None,
    };
    Some((red, green, blue))
}

/// The colour of setting `value`, else of `fallback`, else white.
pub fn resolve_hex_color(value: &str, fallback: &str) -> (r: (u8, u8, u8))
    requires
        !resolve_panics(value@, fallback@),
    ensures
        r == resolved_color(value@, fallback@),
{
    match parse_hex_color(value) {
        Some(c) => c,
        None => match parse_hex_color(fallback) {
            Some(c) => c,
            None => (255, 255, 255),
        },
    }
}

/// The escape sequence for the colour configured as `configured` (when set) with `fallback`.
pub fn color_sequence(configured: Option<&str>, fallback: &str) -> (s: String)
    requires
        !color_sequence_panics(opt_view(configured), fallback@),
    ensures
        s@ == color_sequence_spec(opt_view(configured), fallback@),
{
    let value = match configured {
        Some(v) => v,
        None => fallback,
    };
    let (red, green, blue) = resolve_hex_color(value, fallback);
    let mut s = String::new();
    push_char(&mut s, '\x1b');
    push_char(&mut s, '[');
    push_char(&mut s, '3');
    push_char(&mut s, '8');
    push_char(&mut s, ';');
    push_char(&mut s, '2');
    push_char(&mut s, ';');
    push_decimal(&mut s, red as u64);
    push_char(&mut s, ';');
    push_decimal(&mut s, green as u64);
    push_char(&mut s, ';');
    push_decimal(&mut s, blue as u64);
    push_char(&mut s, 'm');
    proof {
        let rgb = resolved_color(setting_or(opt_view(configured), fallback@), fallback@);
        assert(s@ =~= sgr_color(rgb));
    }
    s
}


pub(crate) proof fn lemma_default_colors()
    ensures
        hex_color(DEFAULT_ASSISTANT_COLOR@) == Some((0u8, 255u8, 255u8)),
        !hex_color_panics(DEFAULT_ASSISTANT_COLOR@),
        hex_color(DEFAULT_PROMPT_COLOR@) == Some((216u8, 174u8, 109u8)),
        !hex_color_panics(DEFAULT_PROMPT_COLOR@),
{
    reveal_strlit("00ffff");
    reveal_strlit("d8ae6dfc");
    let a = DEFAULT_ASSISTANT_COLOR@;
    assert(a == seq!['0', '0', 'f', 'f', 'f', 'f']);
    reveal_with_fuel(trim_start, 2);
    reveal_with_fuel(trim_end, 2);
    reveal_with_fuel(strip_start_char, 2);
    reveal_with_fuel(utf8_len, 9);
    assert(trim(a) == a);
    assert(hex_body(a) == a);
    assert(utf8_len(a) == 6);
    let p = DEFAULT_PROMPT_COLOR@;
    assert(p == seq!['d', '8', 'a', 'e', '6', 'd', 'f', 'c']);
    assert(trim(p) == p);
    assert(hex_body(p) == p);
    assert(utf8_len(p) == 8);
}


/// The text printed for `response`: its text on a line of its own, in the assistant colour
/// when `color` is set, then the token count when the response reports one.
/// `assistant_color` is the configured assistant colour, if any.
pub fn format_response(response: &AgentResponse, color: bool, assistant_color: Option<&str>) -> (s:
    String)
    requires
        color ==> setting_parses_safely(opt_view(assistant_color)),
    ensures
        s@ == response_text(response.text@, response.total_tokens, color, opt_view(assistant_color)),
{
    proof {
        lemma_default_colors();
    }
    let mut s = if color {
        let mut head = color_sequence(assistant_color, DEFAULT_ASSISTANT_COLOR);
        push_str(&mut head, response.text.as_str());
        push_reset(&mut head);
        push_char(&mut head, '\n');
        head
    } else {
        let mut head = String::new();
        push_str(&mut head, response.text.as_str());
        push_char(&mut head, '\n');
        head
    };
    let ghost head = s@;
    match response.total_tokens {
        Some(n) => {
            push_char(&mut s, '\n');
            if color {
                push_char(&mut s, '\x1b');
                push_char(&mut s, '[');
                push_char(&mut s, '2');
                push_char(&mut s, 'm');
            }
            push_tokens_label(&mut s, n);
            if color {
                push_reset(&mut s);
            }
            push_char(&mut s, '\n');
            proof {
                if color {
                    assert(s@ =~= head + seq!['\n', '\x1b', '[', '2', 'm'] + tokens_label(n)
                        + sgr_reset() + seq!['\n']);
                } else {
                    assert(s@ =~= head + seq!['\n'] + tokens_label(n) + seq!['\n']);
                }
            }
        },
        None => {},
    }
    s
}

fn push_reset(s: &mut String)
    ensures
        final(s)@ == old(s)@ + sgr_reset(),
{
    push_char(s, '\x1b');
    push_char(s, '[');
    push_char(s, '0');
    push_char(s, 'm');
    assert(s@ =~= old(s)@ + sgr_reset());
}

fn push_tokens_label(s: &mut String, n: u64)
    ensures
        final(s)@ == old(s)@ + tokens_label(n),
{
    push_char(s, '[');
    push_char(s, 't');
    push_char(s, 'o');
    push_char(s, 'k');
    push_char(s, 'e');
    push_char(s, 'n');
    push_char(s, 's');
    push_char(s, ':');
    push_char(s, ' ');
    push_decimal(s, n);
    push_char(s, ']');
    assert(s@ =~= old(s)@ + tokens_label(n));
}

/// The prompt printed before an input line: `> ` on the first line of a message, `| ` on the
/// lines after it, in the prompt colour when `color` is set. `prompt_color` is the configured
/// prompt colour, if any.
pub fn format_prompt(first_line: bool, color: bool, prompt_color: Option<&str>) -> (s: String)
    requires
        color ==> setting_parses_safely(opt_view(prompt_color)),
    ensures
        s@ == prompt_text(first_line, color, opt_view(prompt_color)),
{
    proof {
        lemma_default_colors();
    }
    let mut s = if color {
        color_sequence(prompt_color, DEFAULT_PROMPT_COLOR)
    } else {
        String::new()
    };
    let ghost head = s@;
    if first_line {
        push_char(&mut s, '>');
    } else {
        push_char(&mut s, '|');
    }
    push_char(&mut s, ' ');
    assert(s@ =~= head + prompt_marker(first_line));
    s
}

/// Whether output is coloured, given whether standard output is a terminal, whether
/// `NO_COLOR` is set, and the value of `OUR_CLI_COLOR` (when set).
pub fn use_color(stdout_is_terminal: bool, no_color_set: bool, color_setting: Option<&str>) -> (r:
    bool)
    ensures
        r == color_enabled(stdout_is_terminal, no_color_set, opt_view(color_setting)),
{
    if !stdout_is_terminal || no_color_set {
        return false;
    }
    match color_setting {
        Some(v) => {
            let chars = chars_of(v);
            let never = ['n', 'e', 'v', 'e', 'r'];
            let r = !chars_eq(chars.as_slice(), 0, chars.len(), never.as_slice());
            proof {
                assert(chars@.subrange(0, chars@.len() as int) =~= chars@);
                assert(never@ =~= seq!['n', 'e', 'v', 'e', 'r']);
            }
            r
        },
        None => true,
    }
}


proof fn lemma_trim_end_prefix(p: Seq<char>, s: Seq<char>)
    requires
        p.len() > 0,
        !is_ws(p.last()),
    ensures
        trim_end(p + s) == p + trim_end(s),
    decreases s.len(),
{
    if s.len() == 0 {
        assert(p + s =~= p);
        assert(p + trim_end(s) =~= p);
    } else if is_ws(s.last()) {
        assert((p + s).drop_last() =~= p + s.drop_last());
        lemma_trim_end_prefix(p, s.drop_last());
    } else {
        assert((p + s).last() == s.last());
    }
}

/// A leading `#` does not change the colour a setting spells, when what follows it does not
/// start with whitespace.
pub proof fn lemma_hash_prefix_ignored(s: Seq<char>)
    requires
        s.len() > 0 ==> !is_ws(s[0]),
    ensures
        hex_color(seq!['#'] + s) == hex_color(s),
        hex_color_panics(seq!['#'] + s) == hex_color_panics(s),
{
    let t = seq!['#'] + s;
    assert(t[0] == '#');
    assert(trim_start(t) == t);
    if s.len() > 0 {
        assert(trim_start(s) == s);
    } else {
        assert(trim_start(s) == s);
    }
    lemma_trim_end_prefix(seq!['#'], s);
    assert(trim(t) == seq!['#'] + trim_end(s));
    assert((seq!['#'] + trim_end(s)).drop_first() =~= trim_end(s));
    assert(hex_body(t) == strip_start_char(trim_end(s), '#'));
}

/// The two bytes after the red, green and blue channels (an alpha channel) are not read.
pub proof fn lemma_alpha_channel_ignored(h: Seq<char>, a: char, b: char)
    requires
        h.len() == 6,
        forall|i: int| 0 <= i < 6 ==> #[trigger] is_hex_digit(h[i]),
        (a as u32) < 0x80,
        (b as u32) < 0x80,
        !is_ws(a),
        !is_ws(b),
    ensures
        hex_color(h + seq![a, b]) == hex_color(h),
        hex_color(h) == Some(
            (
                hex_pair_value(h[0], h[1]).unwrap(),
                hex_pair_value(h[2], h[3]).unwrap(),
                hex_pair_value(h[4], h[5]).unwrap(),
            ),
        ),
        !hex_color_panics(h + seq![a, b]),
        !hex_color_panics(h),
{
    let t = h + seq![a, b];
    assert(is_hex_digit(h[0]) && is_hex_digit(h[5]));
    assert(t[0] == h[0]);
    assert(t.last() == b);
    reveal_with_fuel(trim_start, 2);
    reveal_with_fuel(trim_end, 2);
    reveal_with_fuel(strip_start_char, 2);
    reveal_with_fuel(utf8_len, 9);
    assert(trim(t) == t);
    assert(hex_body(t) == t);
    assert(trim(h) == h);
    assert(hex_body(h) == h);
    assert(utf8_len(h) == 6) by {
        assert forall|i: int| 0 <= i < 6 implies utf8_width(#[trigger] h[i]) == 1 by {
            assert(is_hex_digit(h[i]));
        }
        assert(h.drop_last().drop_last().drop_last().drop_last().drop_last().drop_last().len() == 0);
    }
    assert(t.drop_last().drop_last() =~= h);
    assert(utf8_len(t) == 8);
    assert forall|k: int| 0 <= k < 6 implies t[k] == h[k] by {}
    assert(is_hex_digit(h[1]) && is_hex_digit(h[2]) && is_hex_digit(h[3]) && is_hex_digit(h[4]));
}

/// `s` with each escape sequence removed, an escape sequence running from ESC up to and
/// including the next `m`; `in_escape` tells whether `s` starts inside one.
pub open spec fn without_escapes_from(s: Seq<char>, in_escape: bool) -> Seq<char>
    decreases s.len(),
{
    if s.len() == 0 {
        seq![]
    } else if in_escape {
        without_escapes_from(s.drop_first(), s[0] != 'm')
    } else if s[0] == '\x1b' {
        without_escapes_from(s.drop_first(), true)
    } else {
        seq![s[0]] + without_escapes_from(s.drop_first(), false)
    }
}

/// `s` with every escape sequence (ESC up to and including the next `m`) removed.
pub open spec fn without_escapes(s: Seq<char>) -> Seq<char> {
    without_escapes_from(s, false)
}

/// `s` holds no ESC character.
pub open spec fn has_no_escape(s: Seq<char>) -> bool {
    forall|i: int| 0 <= i < s.len() ==> #[trigger] s[i] != '\x1b'
}

proof fn lemma_plain_prefix_kept(x: Seq<char>, rest: Seq<char>)
    requires
        has_no_escape(x),
    ensures
        without_escapes(x + rest) == x + without_escapes(rest),
    decreases x.len(),
{
    if x.len() == 0 {
        assert(x + rest =~= rest);
        assert(x + without_escapes(rest) =~= without_escapes(rest));
    } else {
        assert((x + rest)[0] == x[0]);
        assert(x[0] != '\x1b');
        assert((x + rest).drop_first() =~= x.drop_first() + rest);
        assert(has_no_escape(x.drop_first())) by {
            assert forall|i: int| 0 <= i < x.drop_first().len() implies #[trigger] x.drop_first()[i]
                != '\x1b' by {
                assert(x.drop_first()[i] == x[i + 1]);
            }
        }
        lemma_plain_prefix_kept(x.drop_first(), rest);
        assert(x + without_escapes(rest) =~= seq![x[0]] + (x.drop_first() + without_escapes(rest)));
    }
}

proof fn lemma_escape_body_dropped(body: Seq<char>, rest: Seq<char>)
    requires
        forall|i: int| 0 <= i < body.len() ==> #[trigger] body[i] != 'm',
    ensures
        without_escapes_from(body + seq!['m'] + rest, true) == without_escapes(rest),
    decreases body.len(),
{
    let s = body + seq!['m'] + rest;
    if body.len() == 0 {
        assert(s[0] == 'm');
        assert(s.drop_first() =~= rest);
    } else {
        assert(s[0] == body[0]);
        assert(s.drop_first() =~= body.drop_first() + seq!['m'] + rest);
        assert forall|i: int| 0 <= i < body.drop_first().len() implies #[trigger] body.drop_first()[i]
            != 'm' by {
            assert(body.drop_first()[i] == body[i + 1]);
        }
        lemma_escape_body_dropped(body.drop_first(), rest);
    }
}

/// Removing the escape sequences from an escape sequence followed by `rest` leaves what
/// removing them from `rest` leaves.
proof fn lemma_escape_dropped(body: Seq<char>, rest: Seq<char>)
    requires
        forall|i: int| 0 <= i < body.len() ==> #[trigger] body[i] != 'm',
    ensures
        without_escapes(seq!['\x1b'] + body + seq!['m'] + rest) == without_escapes(rest),
{
    let s = seq!['\x1b'] + body + seq!['m'] + rest;
    assert(s[0] == '\x1b');
    assert(s.drop_first() =~= body + seq!['m'] + rest);
    lemma_escape_body_dropped(body, rest);
}

/// Colour only adds escape sequences to an answer: removing them from the coloured text gives
/// the plain text, for an answer that holds no ESC character itself.
pub proof fn lemma_color_only_adds_escapes(
    text: Seq<char>,
    total_tokens: Option<u64>,
    assistant_color: Option<Seq<char>>,
)
    requires
        has_no_escape(text),
    ensures
        without_escapes(response_text(text, total_tokens, true, assistant_color)) == response_text(
            text,
            total_tokens,
            false,
            assistant_color,
        ),
{
    let rgb = resolved_color(setting_or(assistant_color, DEFAULT_ASSISTANT_COLOR@), DEFAULT_ASSISTANT_COLOR@);
    lemma_dec_chars_digits(rgb.0 as nat);
    lemma_dec_chars_digits(rgb.1 as nat);
    lemma_dec_chars_digits(rgb.2 as nat);
    let body = seq!['[', '3', '8', ';', '2', ';'] + dec_chars(rgb.0 as nat) + seq![';'] + dec_chars(
        rgb.1 as nat,
    ) + seq![';'] + dec_chars(rgb.2 as nat);
    assert forall|i: int| 0 <= i < body.len() implies #[trigger] body[i] != 'm' by {
        let a = seq!['[', '3', '8', ';', '2', ';'];
        let d0 = dec_chars(rgb.0 as nat);
        let d1 = dec_chars(rgb.1 as nat);
        let d2 = dec_chars(rgb.2 as nat);
        if i < 6 {
            assert(body[i] == a[i]);
        } else if i < 6 + d0.len() {
            assert(body[i] == d0[i - 6]);
        } else if i == 6 + d0.len() {
        } else if i < 7 + d0.len() + d1.len() {
            assert(body[i] == d1[i - 7 - d0.len()]);
        } else if i == 7 + d0.len() + d1.len() {
        } else {
            assert(body[i] == d2[i - 8 - d0.len() - d1.len()]);
        }
    }
    assert(sgr_color(rgb) =~= seq!['\x1b'] + body + seq!['m']);
    let reset_body = seq!['[', '0'];
    assert forall|i: int| 0 <= i < reset_body.len() implies #[trigger] reset_body[i] != 'm' by {}
    assert(sgr_reset() =~= seq!['\x1b'] + reset_body + seq!['m']);
    let dim_body = seq!['[', '2'];
    assert forall|i: int| 0 <= i < dim_body.len() implies #[trigger] dim_body[i] != 'm' by {}
    let nl = seq!['\n'];
    assert(has_no_escape(nl));
    let tail: Seq<char> = match total_tokens {
        Some(n) => seq!['\n', '\x1b', '[', '2', 'm'] + tokens_label(n) + sgr_reset() + seq!['\n'],
        None => seq![],
    };
    let plain_tail: Seq<char> = match total_tokens {
        Some(n) => seq!['\n'] + tokens_label(n) + seq!['\n'],
        None => seq![],
    };
    assert(without_escapes(tail) == plain_tail) by {
        match total_tokens {
            Some(n) => {
                let label = tokens_label(n);
                lemma_dec_chars_digits(n as nat);
                assert(has_no_escape(label)) by {
                    let pre = seq!['[', 't', 'o', 'k', 'e', 'n', 's', ':', ' '];
                    let d = dec_chars(n as nat);
                    assert forall|i: int| 0 <= i < label.len() implies #[trigger] label[i] != '\x1b' by {
                        if i < 9 {
                            assert(label[i] == pre[i]);
                        } else if i < 9 + d.len() {
                            assert(label[i] == d[i - 9]);
                        }
                    }
                }
                let after_label = sgr_reset() + nl;
                lemma_escape_dropped(reset_body, nl);
                assert(after_label =~= seq!['\x1b'] + reset_body + seq!['m'] + nl);
                lemma_plain_prefix_kept(nl, Seq::<char>::empty());
                assert(nl + Seq::<char>::empty() =~= nl);
                assert(without_escapes(Seq::<char>::empty()) =~= Seq::<char>::empty());
                lemma_plain_prefix_kept(label, after_label);
                let dimmed = seq!['\x1b'] + dim_body + seq!['m'] + (label + after_label);
                lemma_escape_dropped(dim_body, label + after_label);
                lemma_plain_prefix_kept(nl, dimmed);
                assert(tail =~= nl + dimmed);
                assert(plain_tail =~= nl + (label + nl));
            },
            None => {},
        }
    }
    let after_text = sgr_reset() + (nl + tail);
    lemma_plain_prefix_kept(nl, tail);
    lemma_escape_dropped(reset_body, nl + tail);
    assert(after_text =~= seq!['\x1b'] + reset_body + seq!['m'] + (nl + tail));
    lemma_plain_prefix_kept(text, after_text);
    lemma_escape_dropped(body, text + after_text);
    assert(response_text(text, total_tokens, true, assistant_color) =~= seq!['\x1b'] + body
        + seq!['m'] + (text + after_text));
    assert(response_text(text, total_tokens, false, assistant_color) =~= text + (nl + plain_tail));
}

} // verus!
