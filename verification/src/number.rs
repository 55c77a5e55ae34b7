//! Unsigned integers read from and written as text, with the rules of
//! `str::parse` for unsigned types and of `u8::from_str_radix(.., 16)`.
use vstd::prelude::*;
use crate::text::push_char;

verus! {

pub open spec fn is_dec_digit(c: char) -> bool {
    '0' <= c && c <= '9'
}

pub open spec fn dec_digit_value(c: char) -> nat {
    (c as nat - '0' as nat) as nat
}

/// The number spelled by the decimal digits `s` (most significant first).
pub open spec fn dec_value(s: Seq<char>) -> nat
    decreases s.len(),
{
    if s.len() == 0 {
        0
    } else {
        dec_value(s.drop_last()) * 10 + dec_digit_value(s.last())
    }
}

/// `s` without one leading `+`.
pub open spec fn without_plus(s: Seq<char>) -> Seq<char> {
    if s.len() > 0 && s[0] == '+' {
        s.drop_first()
    } else {
        s
    }
}

/// The digits of an unsigned decimal literal: an optional `+`, then at least one digit.
pub open spec fn unsigned_digits(s: Seq<char>) -> Option<Seq<char>> {
    let digits = without_plus(s);
    if digits.len() > 0 && forall|i: int| 0 <= i < digits.len() ==> #[trigger] is_dec_digit(digits[i]) {
        Some(digits)
    } else {
        None
    }
}

/// What `str::parse` gives for an unsigned type whose largest value is `max`:
/// the value of the literal when it is well formed and at most `max`.
pub open spec fn parse_unsigned(s: Seq<char>, max: nat) -> Option<nat> {
    match unsigned_digits(s) {
        Some(d) => if dec_value(d) <= max {
            Some(dec_value(d))
        } else {
            None
        },
        None => None,
    }
}

/// The shortest decimal spelling of `n`.
pub open spec fn dec_chars(n: nat) -> Seq<char>
    decreases n,
{
    if n < 10 {
        seq![dec_digit_char(n)]
    } else {
        dec_chars(n / 10).push(dec_digit_char(n % 10))
    }
}

pub open spec fn dec_digit_char(d: nat) -> char {
    ('0' as nat + d) as char
}

pub open spec fn is_hex_digit(c: char) -> bool {
    ||| ('0' <= c && c <= '9')
    ||| ('a' <= c && c <= 'f')
    ||| ('A' <= c && c <= 'F')
}

pub open spec fn hex_digit_value(c: char) -> nat {
    if '0' <= c && c <= '9' {
        (c as nat - '0' as nat) as nat
    } else if 'a' <= c && c <= 'f' {
        (c as nat - 'a' as nat + 10) as nat
    } else {
        (c as nat - 'A' as nat + 10) as nat
    }
}

/// What `u8::from_str_radix(.., 16)` gives for the two-character text `a b`.
pub open spec fn hex_pair_value(a: char, b: char) -> Option<u8> {
    if a == '+' {
        if is_hex_digit(b) {
            Some(hex_digit_value(b) as u8)
        } else {
            None
        }
    } else if is_hex_digit(a) && is_hex_digit(b) {
        Some((hex_digit_value(a) * 16 + hex_digit_value(b)) as u8)
    } else {
        None
    }
}

proof fn lemma_dec_value_push(s: Seq<char>, c: char)
    ensures
        dec_value(s.push(c)) == dec_value(s) * 10 + dec_digit_value(c),
{
    assert(s.push(c).drop_last() =~= s);
}

/// Reads an unsigned decimal literal, refusing values above `max`.
fn parse_unsigned_u64(s: &[char], max: u64) -> (r: Option<u64>)
    ensures
        r matches Some(v) ==> parse_unsigned(s@, max as nat) == Some(v as nat),
        r is None ==> parse_unsigned(s@, max as nat) is None,
{
    let start: usize = if s.len() > 0 && s[0] == '+' {
        1
    } else {
        0
    };
    let ghost digits = without_plus(s@);
    assert(digits =~= s@.subrange(start as int, s@.len() as int));
    if start == s.len() {
        return None;
    }
    let mut value: u64 = 0;
    let mut i: usize = start;
    while i < s.len()
        invariant
            start <= i <= s@.len(),
            digits == s@.subrange(start as int, s@.len() as int),
            digits == without_plus(s@),
            forall|j: int| start <= j < i ==> #[trigger] is_dec_digit(s@[j]),
            value as nat == dec_value(s@.subrange(start as int, i as int)),
            value <= max,
        decreases s.len() - i,
    {
        let c = s[i];
        if !('0' <= c && c <= '9') {
            assert(digits[i - start] == c);
            assert(!is_dec_digit(digits[i - start]));
            assert(unsigned_digits(s@) is None);
            return None;
        }
        proof {
            assert(s@.subrange(start as int, i + 1) =~= s@.subrange(start as int, i as int).push(c));
            lemma_dec_value_push(s@.subrange(start as int, i as int), c);
        }
        let d = (c as u32 - '0' as u32) as u64;
        let next = match value.checked_mul(10) {
            Some(t) => t.checked_add(d),
            None => None,
        };
        match next {
            Some(n) if n <= max => {
                value = n;
            },
            _ => {
                proof {
                    let all = s@.subrange(start as int, s@.len() as int);
                    if forall|j: int| 0 <= j < all.len() ==> #[trigger] is_dec_digit(all[j]) {
                        lemma_dec_value_prefix_monotone(all, i + 1 - start);
                        assert(all.subrange(0, i + 1 - start) =~= s@.subrange(start as int, i + 1));
                        assert(dec_value(s@.subrange(start as int, i + 1)) > max);
                        assert(unsigned_digits(s@) == Some(all));
                    }
                }
                return None;
            },
        }
        i += 1;
    }
    assert(s@.subrange(start as int, s@.len() as int) =~= digits);
    Some(value)
}

/// A longer run of digits never spells a smaller number than its prefix.
proof fn lemma_dec_value_prefix_monotone(s: Seq<char>, k: int)
    requires
        0 <= k <= s.len(),
        forall|j: int| 0 <= j < s.len() ==> #[trigger] is_dec_digit(s[j]),
    ensures
        dec_value(s.subrange(0, k)) <= dec_value(s),
    decreases s.len() - k,
{
    if k < s.len() {
        lemma_dec_value_prefix_monotone(s, k + 1);
        assert(s.subrange(0, k + 1) =~= s.subrange(0, k).push(s[k]));
        lemma_dec_value_push(s.subrange(0, k), s[k]);
    } else {
        assert(s.subrange(0, k) =~= s);
    }
}

/// `str::parse::<u64>`.
pub fn parse_u64(s: &[char]) -> (r: Option<u64>)
    ensures
        r matches Some(v) ==> parse_unsigned(s@, u64::MAX as nat) == Some(v as nat),
        r is None ==> parse_unsigned(s@, u64::MAX as nat) is None,
{
    parse_unsigned_u64(s, u64::MAX)
}

/// `str::parse::<usize>`.
pub fn parse_usize(s: &[char]) -> (r: Option<usize>)
    ensures
        r matches Some(v) ==> parse_unsigned(s@, usize::MAX as nat) == Some(v as nat),
        r is None ==> parse_unsigned(s@, usize::MAX as nat) is None,
{
    match parse_unsigned_u64(s, usize::MAX as u64) {
        Some(v) => Some(v as usize),
        None => None,
    }
}

pub fn hex_digit(c: char) -> (r: Option<u8>)
    ensures
        r matches Some(v) ==> is_hex_digit(c) && v as nat == hex_digit_value(c),
        r is None ==> !is_hex_digit(c),
{
    if '0' <= c && c <= '9' {
        Some((c as u32 - '0' as u32) as u8)
    } else if 'a' <= c && c <= 'f' {
        Some((c as u32 - 'a' as u32 + 10) as u8)
    } else if 'A' <= c && c <= 'F' {
        Some((c as u32 - 'A' as u32 + 10) as u8)
    } else {
        None
    }
}

/// `u8::from_str_radix(.., 16)` on the two-character text `a b`.
pub fn hex_pair(a: char, b: char) -> (r: Option<u8>)
    ensures
        r == hex_pair_value(a, b),
{
    if a == '+' {
        hex_digit(b)
    } else {
        match (hex_digit(a), hex_digit(b)) {
            (Some(x), Some(y)) => Some(x * 16 + y),
            _ => None,
        }
    }
}

/// Appends the decimal spelling of `n` to `s`.
pub fn push_decimal(s: &mut String, n: u64)
    ensures
        final(s)@ == old(s)@ + dec_chars(n as nat),
    decreases n,
{
    if n >= 10 {
        push_decimal(s, n / 10);
    }
    let d = (n % 10) as u32;
    let c = char_from_digit(d);
    push_char(s, c);
    proof {
        if n >= 10 {
            assert(old(s)@ + dec_chars(n as nat) =~= old(s)@ + dec_chars((n / 10) as nat) + seq![c]);
        } else {
            assert(old(s)@ + dec_chars(n as nat) =~= old(s)@.push(c));
        }
    }
}

fn char_from_digit(d: u32) -> (c: char)
    requires
        d < 10,
    ensures
        c == dec_digit_char(d as nat),
{
    if d == 0 {
        '0'
    } else if d == 1 {
        '1'
    } else if d == 2 {
        '2'
    } else if d == 3 {
        '3'
    } else if d == 4 {
        '4'
    } else if d == 5 {
        '5'
    } else if d == 6 {
        '6'
    } else if d == 7 {
        '7'
    } else if d == 8 {
        '8'
    } else {
        '9'
    }
}

/// The decimal spelling of a number holds only digits.
pub proof fn lemma_dec_chars_digits(n: nat)
    ensures
        forall|i: int| 0 <= i < dec_chars(n).len() ==> '0' <= #[trigger] dec_chars(n)[i] <= '9',
    decreases n,
{
    if n >= 10 {
        lemma_dec_chars_digits(n / 10);
        let d = dec_chars(n);
        assert forall|i: int| 0 <= i < d.len() implies '0' <= #[trigger] d[i] <= '9' by {
            if i < d.len() - 1 {
                assert(d[i] == dec_chars(n / 10)[i]);
            }
        }
    }
}

proof fn lemma_dec_digit_char_value(d: nat)
    requires
        d < 10,
    ensures
        dec_digit_value(dec_digit_char(d)) == d,
{
    let c = dec_digit_char(d);
    assert(c as nat == '0' as nat + d);
}

proof fn lemma_dec_value_of_dec_chars(n: nat)
    ensures
        dec_value(dec_chars(n)) == n,
    decreases n,
{
    if n < 10 {
        assert(dec_chars(n) == seq![dec_digit_char(n)]);
        assert(seq![dec_digit_char(n)].drop_last() =~= Seq::<char>::empty());
        lemma_dec_digit_char_value(n);
        assert(dec_value(seq![dec_digit_char(n)]) == dec_value(Seq::<char>::empty()) * 10
            + dec_digit_value(dec_digit_char(n)));
    } else {
        lemma_dec_value_of_dec_chars(n / 10);
        lemma_dec_value_push(dec_chars(n / 10), dec_digit_char(n % 10));
        lemma_dec_digit_char_value(n % 10);
        assert(dec_chars(n) == dec_chars(n / 10).push(dec_digit_char(n % 10)));
        assert((n / 10) * 10 + n % 10 == n) by (nonlinear_arith);
    }
}

/// Reading back the decimal spelling of a number gives the number when it is at most `max`,
/// and nothing when it is larger.
pub proof fn lemma_parse_decimal_round_trip(n: nat, max: nat)
    ensures
        parse_unsigned(dec_chars(n), max) == (if n <= max {
            Some(n)
        } else {
            None
        }),
{
    let d = dec_chars(n);
    lemma_dec_chars_digits(n);
    lemma_dec_value_of_dec_chars(n);
    assert(d.len() > 0) by {
        reveal_with_fuel(dec_chars, 1);
    }
    assert('0' <= d[0] <= '9');
    assert(without_plus(d) == d);
    assert forall|i: int| 0 <= i < d.len() implies #[trigger] is_dec_digit(d[i]) by {
        assert('0' <= d[i] <= '9');
    }
}

} // verus!
