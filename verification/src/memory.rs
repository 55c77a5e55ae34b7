//! The conversation memory: a plain-text transcript of `User:` and `Assistant:` turns,
//! kept to a bounded number of lines.
use vstd::prelude::*;
use crate::number::{dec_chars, lemma_parse_decimal_round_trip, parse_unsigned, parse_usize};
use crate::text::{
    chars_are_blank, chars_of, is_blank, is_ws, join_lines, push_char, push_chars, push_str, string_of,
    trim_end, trim_end_index,
};

verus! {

/// Lines kept in the memory when no limit is configured.
pub const DEFAULT_MAX_HISTORY_LINES: usize = 240;

/// `User: `
pub open spec fn user_prefix() -> Seq<char> {
    seq!['U', 's', 'e', 'r', ':', ' ']
}

/// `Assistant: `
pub open spec fn assistant_prefix() -> Seq<char> {
    seq!['A', 's', 's', 'i', 's', 't', 'a', 'n', 't', ':', ' ']
}

/// `our-cli memory is empty.` and a line break.
pub open spec fn empty_memory_notice() -> Seq<char> {
    seq![
        'o', 'u', 'r', '-', 'c', 'l', 'i', ' ', 'm', 'e', 'm', 'o', 'r', 'y', ' ', 'i', 's', ' ',
        'e', 'm', 'p', 't', 'y', '.', '\n',
    ]
}

/// A line without its terminating `\n` and, before that, one `\r`.
pub open spec fn strip_cr(line: Seq<char>) -> Seq<char> {
    if line.len() > 0 && line.last() == '\r' {
        line.drop_last()
    } else {
        line
    }
}

/// The lines of `s` (as `str::lines` yields them) when `cur` has already been read
/// as the start of the current line.
pub open spec fn lines_from(s: Seq<char>, cur: Seq<char>) -> Seq<Seq<char>>
    decreases s.len(),
{
    if s.len() == 0 {
        if cur.len() == 0 {
            seq![]
        } else {
            seq![cur]
        }
    } else if s[0] == '\n' {
        seq![strip_cr(cur)] + lines_from(s.drop_first(), seq![])
    } else {
        lines_from(s.drop_first(), cur.push(s[0]))
    }
}

/// The lines of `s`, as `str::lines` yields them: split at each `\n`, each without a
/// trailing `\r` before the `\n`; a final `\n` ends the last line rather than starting one.
pub open spec fn lines(s: Seq<char>) -> Seq<Seq<char>> {
    lines_from(s, seq![])
}

/// The memory text kept when `text` may hold at most `max_lines` lines: `text` itself when
/// it is short enough, else its last `max_lines` lines, each ended by `\n`.
pub open spec fn trimmed_history(text: Seq<char>, max_lines: nat) -> Seq<char> {
    let ls = lines(text);
    if ls.len() <= max_lines {
        text
    } else {
        join_lines(ls.skip(ls.len() - max_lines)) + seq!['\n']
    }
}

/// The prompt sent for `message` after the memory `existing`.
pub open spec fn transcript_after(existing: Seq<char>, message: Seq<char>) -> Seq<char> {
    if is_blank(existing) {
        user_prefix() + message
    } else {
        trim_end(existing) + seq!['\n', '\n'] + user_prefix() + message
    }
}

/// The exchange as it is recorded: the transcript that was sent, then the answer.
pub open spec fn exchange_text(transcript: Seq<char>, answer: Seq<char>) -> Seq<char> {
    transcript + seq!['\n', '\n'] + assistant_prefix() + answer + seq!['\n', '\n']
}

/// The memory saved after `answer` was given to `transcript`.
pub open spec fn memory_after(transcript: Seq<char>, answer: Seq<char>, max_lines: nat) -> Seq<char> {
    trimmed_history(exchange_text(transcript, answer), max_lines)
}

/// The line limit configured by `setting`: a positive whole number, else the default.
pub open spec fn line_limit(setting: Option<Seq<char>>) -> nat {
    match setting {
        Some(v) => match parse_unsigned(v, usize::MAX as nat) {
            Some(n) => if n > 0 {
                n
            } else {
                DEFAULT_MAX_HISTORY_LINES as nat
            },
            None => DEFAULT_MAX_HISTORY_LINES as nat,
        },
        None => DEFAULT_MAX_HISTORY_LINES as nat,
    }
}

/// The text that `history` shows for the memory `text`.
pub open spec fn history_text(text: Seq<char>) -> Seq<char> {
    if is_blank(text) {
        empty_memory_notice()
    } else {
        text
    }
}

pub open spec fn ranges_lines(text: Seq<char>, ranges: Seq<(usize, usize)>) -> Seq<Seq<char>> {
    ranges.map_values(|r: (usize, usize)| text.subrange(r.0 as int, r.1 as int))
}

/// The line ranges of `v`: for each line that `str::lines` yields, where it starts and ends.
fn line_ranges(v: &[char]) -> (ranges: Vec<(usize, usize)>)
    ensures
        ranges_lines(v@, ranges@) == lines(v@),
        forall|k: int|
            0 <= k < ranges@.len() ==> #[trigger] ranges@[k].0 <= ranges@[k].1 <= v@.len(),
{
    let mut ranges: Vec<(usize, usize)> = Vec::new();
    let mut start: usize = 0;
    let mut i: usize = 0;
    proof {
        assert(v@.skip(0) =~= v@);
        assert(v@.subrange(0, 0) =~= Seq::<char>::empty());
        assert(ranges_lines(v@, ranges@) =~= Seq::<Seq<char>>::empty());
        assert(ranges_lines(v@, ranges@) + lines(v@) =~= lines(v@));
    }
    while i < v.len()
        invariant
            start <= i <= v@.len(),
            forall|k: int|
                0 <= k < ranges@.len() ==> #[trigger] ranges@[k].0 <= ranges@[k].1 <= v@.len(),
            lines(v@) == ranges_lines(v@, ranges@) + lines_from(
                v@.skip(i as int),
                v@.subrange(start as int, i as int),
            ),
        decreases v.len() - i,
    {
        let ghost before = ranges_lines(v@, ranges@);
        assert(v@.skip(i as int)[0] == v@[i as int]);
        assert(v@.skip(i as int).drop_first() =~= v@.skip(i + 1));
        if v[i] == '\n' {
            let end = if i > start && v[i - 1] == '\r' {
                i - 1
            } else {
                i
            };
            ranges.push((start, end));
            proof {
                assert(strip_cr(v@.subrange(start as int, i as int)) =~= v@.subrange(
                    start as int,
                    end as int,
                ));
                assert(ranges_lines(v@, ranges@) =~= before + seq![
                    v@.subrange(start as int, end as int),
                ]);
                assert(v@.subrange(i + 1, i + 1) =~= Seq::<char>::empty());
            }
            start = i + 1;
        } else {
            assert(v@.subrange(start as int, i as int).push(v@[i as int]) =~= v@.subrange(
                start as int,
                i + 1,
            ));
        }
        i += 1;
    }
    proof {
        assert(v@.skip(i as int) =~= Seq::<char>::empty());
        if start < i {
            assert(ranges_lines(v@, ranges@.push((start, i))) =~= ranges_lines(v@, ranges@) + seq![
                v@.subrange(start as int, i as int),
            ]);
        } else {
            assert(ranges_lines(v@, ranges@) + lines_from(
                v@.skip(i as int),
                v@.subrange(start as int, i as int),
            ) =~= ranges_lines(v@, ranges@));
        }
    }
    if start < i {
        ranges.push((start, i));
    }
    ranges
}

/// Keeps the last `max_lines` lines of the memory `text`; a text with no more lines than
/// that is kept as it is.
pub fn trim_history_lines_to(text: &str, max_lines: usize) -> (r: String)
    ensures
        r@ == trimmed_history(text@, max_lines as nat),
{
    let v = chars_of(text);
    let ranges = line_ranges(v.as_slice());
    if ranges.len() <= max_lines {
        return string_of(v.as_slice(), 0, v.len());
    }
    let first = ranges.len() - max_lines;
    let ghost kept = lines(v@).skip(first as int);
    let mut out = String::new();
    let mut k = first;
    while k < ranges.len()
        invariant
            first <= k <= ranges@.len(),
            ranges_lines(v@, ranges@) == lines(v@),
            kept == lines(v@).skip(first as int),
            forall|j: int|
                0 <= j < ranges@.len() ==> #[trigger] ranges@[j].0 <= ranges@[j].1 <= v@.len(),
            out@ == join_lines(kept.take(k - first)),
        decreases ranges.len() - k,
    {
        let (a, b) = ranges[k];
        let ghost before = out@;
        if k > first {
            push_char(&mut out, '\n');
        }
        push_chars(&mut out, v.as_slice(), a, b);
        proof {
            let taken = kept.take(k + 1 - first);
            assert(taken.drop_last() =~= kept.take(k - first));
            assert(taken.last() == v@.subrange(a as int, b as int));
            if k == first {
                assert(taken.len() == 1);
                assert(out@ =~= taken[0]);
            } else {
                assert(out@ =~= join_lines(taken.drop_last()) + seq!['\n'] + taken.last());
            }
        }
        k += 1;
    }
    push_char(&mut out, '\n');
    proof {
        assert(kept.take(ranges@.len() - first) =~= kept);
    }
    out
}

/// The prompt sent for `message` given the saved memory `existing`: the message as a
/// `User:` turn, after the memory (without its trailing whitespace) when there is any.
pub fn build_transcript_from_memory(existing: &str, message: &str) -> (r: String)
    ensures
        r@ == transcript_after(existing@, message@),
{
    let v = chars_of(existing);
    let mut out = String::new();
    if !chars_are_blank(v.as_slice()) {
        let end = trim_end_index(v.as_slice(), 0, v.len());
        push_chars(&mut out, v.as_slice(), 0, end);
        push_char(&mut out, '\n');
        push_char(&mut out, '\n');
        proof {
            assert(v@.subrange(0, v@.len() as int) =~= v@);
        }
    }
    let ghost head = out@;
    push_user_prefix(&mut out);
    push_str(&mut out, message);
    assert(out@ =~= head + user_prefix() + message@);
    out
}

fn push_user_prefix(s: &mut String)
    ensures
        final(s)@ == old(s)@ + user_prefix(),
{
    push_char(s, 'U');
    push_char(s, 's');
    push_char(s, 'e');
    push_char(s, 'r');
    push_char(s, ':');
    push_char(s, ' ');
    assert(s@ =~= old(s)@ + user_prefix());
}

fn push_assistant_prefix(s: &mut String)
    ensures
        final(s)@ == old(s)@ + assistant_prefix(),
{
    push_char(s, 'A');
    push_char(s, 's');
    push_char(s, 's');
    push_char(s, 'i');
    push_char(s, 's');
    push_char(s, 't');
    push_char(s, 'a');
    push_char(s, 'n');
    push_char(s, 't');
    push_char(s, ':');
    push_char(s, ' ');
    assert(s@ =~= old(s)@ + assistant_prefix());
}

/// The memory text saved once `answer` came back for `transcript`: the transcript, then
/// the answer as an `Assistant:` turn, kept to `max_lines` lines.
pub fn memory_after_exchange(transcript: &str, answer: &str, max_lines: usize) -> (r: String)
    ensures
        r@ == memory_after(transcript@, answer@, max_lines as nat),
{
    let mut record = String::new();
    push_str(&mut record, transcript);
    push_char(&mut record, '\n');
    push_char(&mut record, '\n');
    push_assistant_prefix(&mut record);
    push_str(&mut record, answer);
    push_char(&mut record, '\n');
    push_char(&mut record, '\n');
    assert(record@ =~= exchange_text(transcript@, answer@));
    trim_history_lines_to(record.as_str(), max_lines)
}

/// The number of memory lines to keep, from the `OUR_CLI_MAX_HISTORY_LINES` setting:
/// a positive whole number, else 240.
pub fn history_line_limit(setting: Option<&str>) -> (n: usize)
    ensures
        n > 0,
        n as nat == line_limit(
            match setting {
                Some(v) => Some(v@),
                None => None,
            },
        ),
{
    match setting {
        Some(v) => {
            let chars = chars_of(v);
            match parse_usize(chars.as_slice()) {
                Some(n) => if n > 0 {
                    n
                } else {
                    DEFAULT_MAX_HISTORY_LINES
                },
                None => DEFAULT_MAX_HISTORY_LINES,
            }
        },
        None => DEFAULT_MAX_HISTORY_LINES,
    }
}

/// What `history` prints for the saved memory `text`: the text itself, or a notice that
/// the memory is empty when it holds only whitespace.
pub fn history_report(text: &str) -> (r: String)
    ensures
        r@ == history_text(text@),
{
    let v = chars_of(text);
    if chars_are_blank(v.as_slice()) {
        let mut s = String::new();
        let notice = [
            'o', 'u', 'r', '-', 'c', 'l', 'i', ' ', 'm', 'e', 'm', 'o', 'r', 'y', ' ', 'i', 's',
            ' ', 'e', 'm', 'p', 't', 'y', '.', '\n',
        ];
        push_chars(&mut s, notice.as_slice(), 0, notice.len());
        assert(notice@.subrange(0, 25) =~= empty_memory_notice());
        s
    } else {
        string_of(v.as_slice(), 0, v.len())
    }
}


/// No line holds a line feed.
pub open spec fn no_line_feed(s: Seq<char>) -> bool {
    forall|i: int| 0 <= i < s.len() ==> #[trigger] s[i] != '\n'
}

proof fn lemma_lines_from_concat(a: Seq<char>, b: Seq<char>, cur: Seq<char>)
    requires
        a.len() > 0,
        a.last() == '\n',
    ensures
        lines_from(a + b, cur) == lines_from(a, cur) + lines_from(b, seq![]),
    decreases a.len(),
{
    assert((a + b)[0] == a[0]);
    assert((a + b).drop_first() =~= a.drop_first() + b);
    if a.len() == 1 {
        assert(a.drop_first() =~= Seq::<char>::empty());
        assert(a.drop_first() + b =~= b);
        assert(lines_from(a.drop_first(), seq![]) =~= Seq::<Seq<char>>::empty());
    } else if a[0] == '\n' {
        lemma_lines_from_concat(a.drop_first(), b, seq![]);
        assert(lines_from(a + b, cur) =~= lines_from(a, cur) + lines_from(b, seq![]));
    } else {
        lemma_lines_from_concat(a.drop_first(), b, cur.push(a[0]));
    }
}

proof fn lemma_lines_from_single(x: Seq<char>, cur: Seq<char>)
    requires
        no_line_feed(x),
    ensures
        lines_from(x + seq!['\n'], cur) == seq![strip_cr(cur + x)],
    decreases x.len(),
{
    let s = x + seq!['\n'];
    if x.len() == 0 {
        assert(s =~= seq!['\n']);
        assert(s.drop_first() =~= Seq::<char>::empty());
        assert(cur + x =~= cur);
        assert(lines_from(s.drop_first(), seq![]) =~= Seq::<Seq<char>>::empty());
        assert(lines_from(s, cur) =~= seq![strip_cr(cur)] + lines_from(s.drop_first(), seq![]));
    } else {
        assert(s[0] == x[0]);
        assert(s.drop_first() =~= x.drop_first() + seq!['\n']);
        assert(cur.push(x[0]) + x.drop_first() =~= cur + x);
        lemma_lines_from_single(x.drop_first(), cur.push(x[0]));
    }
}

proof fn lemma_lines_from_no_line_feed(s: Seq<char>, cur: Seq<char>)
    requires
        no_line_feed(cur),
    ensures
        forall|k: int|
            0 <= k < lines_from(s, cur).len() ==> no_line_feed(#[trigger] lines_from(s, cur)[k]),
    decreases s.len(),
{
    if s.len() == 0 {
        assert forall|k: int| 0 <= k < lines_from(s, cur).len() implies no_line_feed(
            #[trigger] lines_from(s, cur)[k],
        ) by {
            assert(lines_from(s, cur)[k] == cur);
        }
    } else if s[0] == '\n' {
        lemma_lines_from_no_line_feed(s.drop_first(), seq![]);
        let rest = lines_from(s.drop_first(), seq![]);
        assert forall|k: int| 0 <= k < lines_from(s, cur).len() implies no_line_feed(
            #[trigger] lines_from(s, cur)[k],
        ) by {
            if k > 0 {
                assert(lines_from(s, cur)[k] == rest[k - 1]);
            } else {
                let c = strip_cr(cur);
                assert forall|i: int| 0 <= i < c.len() implies #[trigger] c[i] != '\n' by {
                    assert(c[i] == cur[i]);
                }
            }
        }
    } else {
        let next = cur.push(s[0]);
        assert forall|i: int| 0 <= i < next.len() implies #[trigger] next[i] != '\n' by {
            if i < cur.len() {
                assert(next[i] == cur[i]);
            }
        }
        lemma_lines_from_no_line_feed(s.drop_first(), next);
        assert(lines_from(s, cur) == lines_from(s.drop_first(), next));
    }
}

/// Lines that hold no line feed, joined and ended by `\n`, read back as that many lines.
proof fn lemma_join_lines_count(ls: Seq<Seq<char>>)
    requires
        ls.len() > 0,
        forall|k: int| 0 <= k < ls.len() ==> no_line_feed(#[trigger] ls[k]),
    ensures
        lines(join_lines(ls) + seq!['\n']).len() == ls.len(),
    decreases ls.len(),
{
    if ls.len() == 1 {
        lemma_lines_from_single(ls[0], seq![]);
    } else {
        let init = ls.drop_last();
        assert forall|k: int| 0 <= k < init.len() implies no_line_feed(#[trigger] init[k]) by {
            assert(init[k] == ls[k]);
        }
        lemma_join_lines_count(init);
        let a = join_lines(init) + seq!['\n'];
        let b = ls.last() + seq!['\n'];
        assert(join_lines(ls) + seq!['\n'] =~= a + b);
        lemma_lines_from_concat(a, b, seq![]);
        lemma_lines_from_single(ls.last(), seq![]);
    }
}

/// Trimming the memory to a positive number of lines leaves at most that many lines.
pub proof fn lemma_trimmed_history_line_bound(text: Seq<char>, max_lines: nat)
    requires
        max_lines > 0,
    ensures
        lines(trimmed_history(text, max_lines)).len() <= max_lines,
        lines(text).len() > max_lines ==> lines(trimmed_history(text, max_lines)).len()
            == max_lines,
{
    let ls = lines(text);
    if ls.len() > max_lines {
        let kept = ls.skip(ls.len() - max_lines);
        lemma_lines_from_no_line_feed(text, seq![]);
        assert forall|k: int| 0 <= k < kept.len() implies no_line_feed(#[trigger] kept[k]) by {
            assert(kept[k] == ls[k + ls.len() - max_lines]);
        }
        lemma_join_lines_count(kept);
    }
}

/// Trimming the memory twice to the same positive number of lines is trimming it once.
pub proof fn lemma_trimmed_history_idempotent(text: Seq<char>, max_lines: nat)
    requires
        max_lines > 0,
    ensures
        trimmed_history(trimmed_history(text, max_lines), max_lines) == trimmed_history(
            text,
            max_lines,
        ),
{
    lemma_trimmed_history_line_bound(text, max_lines);
}

proof fn lemma_trim_end_line_feeds(x: Seq<char>)
    ensures
        trim_end(x + seq!['\n', '\n']) == trim_end(x),
{
    let s = x + seq!['\n', '\n'];
    assert(is_ws(s.last()));
    assert(s.drop_last() =~= x + seq!['\n']);
    assert(is_ws(s.drop_last().last()));
    assert(s.drop_last().drop_last() =~= x);
    assert(trim_end(s) == trim_end(s.drop_last()));
    assert(trim_end(s.drop_last()) == trim_end(s.drop_last().drop_last()));
}

/// What a later turn reads back of a saved exchange: when the exchange fits in the memory,
/// the memory holds it as it was recorded, and the next prompt carries the exchange
/// (without trailing whitespace) before the new `User:` turn.
pub proof fn lemma_memory_round_trip(
    transcript: Seq<char>,
    answer: Seq<char>,
    max_lines: nat,
    message: Seq<char>,
)
    requires
        lines(exchange_text(transcript, answer)).len() <= max_lines,
    ensures
        memory_after(transcript, answer, max_lines) == exchange_text(transcript, answer),
        transcript_after(memory_after(transcript, answer, max_lines), message) == trim_end(
            transcript + seq!['\n', '\n'] + assistant_prefix() + answer,
        ) + seq!['\n', '\n'] + user_prefix() + message,
{
    let body = transcript + seq!['\n', '\n'] + assistant_prefix() + answer;
    let saved = exchange_text(transcript, answer);
    assert(saved =~= body + seq!['\n', '\n']);
    lemma_trim_end_line_feeds(body);
    let k: int = transcript.len() as int + 2;
    assert(saved[k] == 'A');
    assert(!is_ws(saved[k]));
}

/// Any positive whole number the line limit is set to is the limit used, however large; an
/// unset, unreadable or zero setting gives 240.
pub proof fn lemma_configured_line_limit_used(v: Seq<char>, n: nat)
    ensures
        parse_unsigned(v, usize::MAX as nat) == Some(n) && n > 0 ==> line_limit(Some(v)) == n,
        parse_unsigned(v, usize::MAX as nat) is None ==> line_limit(Some(v)) == 240,
        parse_unsigned(v, usize::MAX as nat) == Some(0nat) ==> line_limit(Some(v)) == 240,
        line_limit(None) == 240,
{
}

/// A limit written as the decimal spelling of a positive number that fits in `usize` is that
/// number.
pub proof fn lemma_decimal_line_limit(n: nat)
    requires
        0 < n <= usize::MAX,
    ensures
        line_limit(Some(dec_chars(n))) == n,
{
    lemma_parse_decimal_round_trip(n, usize::MAX as nat);
}

} // verus!
