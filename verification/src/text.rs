//! Text as characters: lines, tokens between white space, and decimal
//! integers.
use vstd::prelude::*;
use vstd::slice::{slice_subrange, slice_to_vec};

verus! {

/// The characters of `text`.
pub fn chars_of(text: &str) -> (chars: Vec<char>)
    ensures
        chars@ == text@,
{
    let mut chars: Vec<char> = Vec::new();
    for c in iter: text.chars()
        invariant
            chars@ == iter.seq().take(iter.index() as int),
            iter.seq() == text@,
    {
        chars.push(c);
        proof {
            assert(iter.seq().take(iter.index() + 1) =~= iter.seq().take(
                iter.index() as int,
            ).push(c));
        }
    }
    proof {
        assert(chars@ =~= text@);
    }
    chars
}

/// The characters of each of `items`.
pub open spec fn views(items: Seq<Vec<char>>) -> Seq<Seq<char>> {
    items.map_values(|item: Vec<char>| item@)
}

/// A copy of the characters of `text` from `from` up to, not including,
/// `to`.
pub fn copy_range(text: &[char], from: usize, to: usize) -> (copy: Vec<char>)
    requires
        from <= to <= text@.len(),
    ensures
        copy@ == text@.subrange(from as int, to as int),
{
    slice_to_vec(slice_subrange(text, from, to))
}

/// Whether `c` is white space: a character with the Unicode property
/// `White_Space`.
pub open spec fn white_space(c: char) -> bool {
    let code = c as u32;
    ||| 0x09 <= code <= 0x0D
    ||| code == 0x20
    ||| code == 0x85
    ||| code == 0xA0
    ||| code == 0x1680
    ||| 0x2000 <= code <= 0x200A
    ||| code == 0x2028
    ||| code == 0x2029
    ||| code == 0x202F
    ||| code == 0x205F
    ||| code == 0x3000
}

/// Whether `c` is white space.
pub fn is_white_space(c: char) -> (white: bool)
    ensures
        white == white_space(c),
{
    let code = c as u32;
    (0x09 <= code && code <= 0x0D) || code == 0x20 || code == 0x85 || code == 0xA0 || code
        == 0x1680 || (0x2000 <= code && code <= 0x200A) || code == 0x2028 || code == 0x2029
        || code == 0x202F || code == 0x205F || code == 0x3000
}

/// How many characters come before the first line feed of `text`, or
/// before its end where it holds none.
pub open spec fn line_length(text: Seq<char>) -> nat
    decreases text.len(),
{
    if text.len() == 0 || text[0] == '\n' {
        0
    } else {
        1 + line_length(text.skip(1))
    }
}

/// `line` without the carriage return that it ends with, if it does.
pub open spec fn without_return(line: Seq<char>) -> Seq<char> {
    if line.len() > 0 && line.last() == '\r' {
        line.drop_last()
    } else {
        line
    }
}

/// The lines of `text`. A line ends with a line feed, or with a carriage
/// return and a line feed, which are not part of it; the last line may end
/// with the text instead.
pub open spec fn lines_of(text: Seq<char>) -> Seq<Seq<char>>
    decreases text.len(),
{
    if text.len() == 0 {
        Seq::empty()
    } else {
        let n = line_length(text) as int;
        if n < text.len() {
            seq![without_return(text.take(n))] + lines_of(text.skip(n + 1))
        } else {
            seq![text]
        }
    }
}

/// `line_length` is the place of the first line feed.
proof fn lemma_line_length(text: Seq<char>, n: int)
    requires
        0 <= n <= text.len(),
        forall|k: int| 0 <= k < n ==> text[k] != '\n',
        n < text.len() ==> text[n] == '\n',
    ensures
        line_length(text) == n,
    decreases n,
{
    if n > 0 {
        lemma_line_length(text.skip(1), n - 1);
    }
}

/// The lines of `text`.
pub fn split_lines(text: &[char]) -> (lines: Vec<Vec<char>>)
    ensures
        views(lines@) == lines_of(text@),
{
    let mut lines: Vec<Vec<char>> = Vec::new();
    let mut start: usize = 0;
    proof {
        assert(text@.skip(0) =~= text@);
        assert(views(lines@) + lines_of(text@) =~= lines_of(text@));
    }
    while start < text.len()
        invariant
            start <= text@.len(),
            lines_of(text@) == views(lines@) + lines_of(text@.skip(start as int)),
        decreases text@.len() - start,
    {
        let mut end: usize = start;
        while end < text.len() && text[end] != '\n'
            invariant
                start <= end <= text@.len(),
                forall|k: int| start <= k < end ==> text@[k] != '\n',
            decreases text@.len() - end,
        {
            end += 1;
        }
        let ghost rest = text@.skip(start as int);
        let ghost done = views(lines@);
        proof {
            lemma_line_length(rest, end - start);
        }
        if end < text.len() {
            let stop = if end > start && text[end - 1] == '\r' {
                end - 1
            } else {
                end
            };
            let line = copy_range(text, start, stop);
            proof {
                assert(line@ =~= without_return(rest.take(end - start)));
                assert(rest.skip(end - start + 1) =~= text@.skip(end + 1));
            }
            lines.push(line);
            proof {
                assert(views(lines@) =~= done.push(line@));
                assert(done + (seq![line@] + lines_of(text@.skip(end + 1))) =~= done.push(line@)
                    + lines_of(text@.skip(end + 1)));
            }
            start = end + 1;
        } else {
            let line = copy_range(text, start, end);
            proof {
                assert(line@ =~= rest);
                assert(lines_of(text@.skip(end as int)) =~= Seq::<Seq<char>>::empty());
            }
            lines.push(line);
            proof {
                assert(views(lines@) =~= done.push(line@));
                assert(done + seq![rest] =~= done.push(line@) + Seq::<Seq<char>>::empty());
            }
            start = end;
        }
    }
    proof {
        assert(lines_of(text@.skip(start as int)) =~= Seq::<Seq<char>>::empty());
        assert(views(lines@) + Seq::<Seq<char>>::empty() =~= views(lines@));
    }
    lines
}

/// How many characters come before the first white space of `text`, or
/// before its end where it holds none.
pub open spec fn word_length(text: Seq<char>) -> nat
    decreases text.len(),
{
    if text.len() == 0 || white_space(text[0]) {
        0
    } else {
        1 + word_length(text.skip(1))
    }
}

/// `word_length` is the place of the first white space.
proof fn lemma_word_length(text: Seq<char>, n: int)
    requires
        0 <= n <= text.len(),
        forall|k: int| 0 <= k < n ==> !white_space(text[k]),
        n < text.len() ==> white_space(text[n]),
    ensures
        word_length(text) == n,
    decreases n,
{
    if n > 0 {
        lemma_word_length(text.skip(1), n - 1);
    }
}

/// A word is no longer than its text.
proof fn lemma_word_length_bound(text: Seq<char>)
    ensures
        word_length(text) <= text.len(),
    decreases text.len(),
{
    if text.len() > 0 && !white_space(text[0]) {
        lemma_word_length_bound(text.skip(1));
    }
}

/// The tokens of `line`: its longest runs of characters that are not white
/// space, in order.
pub open spec fn tokens_of(line: Seq<char>) -> Seq<Seq<char>>
    decreases line.len(),
    via tokens_of_decreases
{
    if line.len() == 0 {
        Seq::empty()
    } else if white_space(line[0]) {
        tokens_of(line.skip(1))
    } else {
        let n = word_length(line) as int;
        seq![line.take(n)] + tokens_of(line.skip(n))
    }
}

#[via_fn]
proof fn tokens_of_decreases(line: Seq<char>) {
    lemma_word_length_bound(line);
}

/// The tokens of `line`.
pub fn split_tokens(line: &[char]) -> (tokens: Vec<Vec<char>>)
    ensures
        views(tokens@) == tokens_of(line@),
{
    let mut tokens: Vec<Vec<char>> = Vec::new();
    let mut start: usize = 0;
    proof {
        assert(line@.skip(0) =~= line@);
        assert(views(tokens@) + tokens_of(line@) =~= tokens_of(line@));
    }
    while start < line.len()
        invariant
            start <= line@.len(),
            tokens_of(line@) == views(tokens@) + tokens_of(line@.skip(start as int)),
        decreases line@.len() - start,
    {
        let ghost rest = line@.skip(start as int);
        if is_white_space(line[start]) {
            proof {
                assert(rest.skip(1) =~= line@.skip(start + 1));
            }
            start += 1;
        } else {
            let mut end: usize = start + 1;
            while end < line.len() && !is_white_space(line[end])
                invariant
                    start < end <= line@.len(),
                    forall|k: int| start <= k < end ==> !white_space(line@[k]),
                decreases line@.len() - end,
            {
                end += 1;
            }
            let ghost done = views(tokens@);
            let token = copy_range(line, start, end);
            proof {
                lemma_word_length(rest, end - start);
                assert(token@ =~= rest.take(end - start));
                assert(rest.skip(end - start) =~= line@.skip(end as int));
            }
            tokens.push(token);
            proof {
                assert(views(tokens@) =~= done.push(token@));
                assert(done + (seq![token@] + tokens_of(line@.skip(end as int))) =~= done.push(
                    token@,
                ) + tokens_of(line@.skip(end as int)));
            }
            start = end;
        }
    }
    proof {
        assert(tokens_of(line@.skip(start as int)) =~= Seq::<Seq<char>>::empty());
        assert(views(tokens@) + Seq::<Seq<char>>::empty() =~= views(tokens@));
    }
    tokens
}

/// Whether `c` is one of the ten decimal digits.
pub open spec fn is_digit(c: char) -> bool {
    48 <= c as u32 <= 57
}

/// Whether `text` holds decimal digits only.
pub open spec fn all_digits(text: Seq<char>) -> bool {
    forall|i: int| 0 <= i < text.len() ==> is_digit(#[trigger] text[i])
}

/// The number that the decimal digits of `digits` write.
pub open spec fn digits_value(digits: Seq<char>) -> int
    decreases digits.len(),
{
    if digits.len() == 0 {
        0
    } else {
        10 * digits_value(digits.drop_last()) + (digits.last() as u32 - 48)
    }
}

/// Whether `token` starts with a sign.
pub open spec fn has_sign(token: Seq<char>) -> bool {
    token.len() > 0 && (token[0] == '-' || token[0] == '+')
}

/// The digits of `token`: what follows its sign, or all of it where it has
/// none.
pub open spec fn digits_of(token: Seq<char>) -> Seq<char> {
    if has_sign(token) {
        token.skip(1)
    } else {
        token
    }
}

/// The number that `token` writes in decimal digits, with or without a
/// sign before them; none where it holds no digit, holds anything else, or
/// writes a number outside the 32-bit range.
pub open spec fn integer_of(token: Seq<char>) -> Option<i32> {
    let digits = digits_of(token);
    let value = if token.len() > 0 && token[0] == '-' {
        -digits_value(digits)
    } else {
        digits_value(digits)
    };
    if digits.len() > 0 && all_digits(digits) && i32::MIN <= value <= i32::MAX {
        Some(value as i32)
    } else {
        None
    }
}

/// Digits written after a number do not make it smaller.
proof fn lemma_digits_grow(digits: Seq<char>, n: int)
    requires
        0 <= n <= digits.len(),
        all_digits(digits),
    ensures
        0 <= digits_value(digits.take(n)) <= digits_value(digits),
    decreases digits.len() - n,
{
    if n == digits.len() {
        assert(digits.take(n) =~= digits);
        lemma_digits_positive(digits);
    } else {
        lemma_digits_grow(digits.drop_last(), n);
        assert(digits.drop_last().take(n) =~= digits.take(n));
        assert(is_digit(digits[digits.len() - 1]));
    }
}

/// Digits write no negative number.
proof fn lemma_digits_positive(digits: Seq<char>)
    requires
        all_digits(digits),
    ensures
        0 <= digits_value(digits),
    decreases digits.len(),
{
    if digits.len() > 0 {
        lemma_digits_positive(digits.drop_last());
        assert(is_digit(digits[digits.len() - 1]));
    }
}

/// The number that `token` writes, as `integer_of` says.
pub fn parse_integer(token: &[char]) -> (value: Option<i32>)
    ensures
        value == integer_of(token@),
{
    let len = token.len();
    if len == 0 {
        return None;
    }
    let negative = token[0] == '-';
    let start: usize = if token[0] == '-' || token[0] == '+' {
        1
    } else {
        0
    };
    let ghost digits = digits_of(token@);
    if start == len {
        return None;
    }
    let mut total: i64 = 0;
    let mut i: usize = start;
    proof {
        assert(token@.skip(0) =~= token@);
        assert(digits.take(0) =~= Seq::<char>::empty());
    }
    while i < len
        invariant
            start <= i <= len,
            len == token@.len(),
            digits == token@.skip(start as int),
            digits == digits_of(token@),
            all_digits(digits.take(i - start)),
            total == digits_value(digits.take(i - start)),
            0 <= total <= 2147483648,
        decreases len - i,
    {
        let code = token[i] as u32;
        if code < 48 || code > 57 {
            proof {
                assert(digits[i - start] == token@[i as int]);
                assert(!is_digit(digits[i - start]));
            }
            return None;
        }
        let digit = (code - 48) as i64;
        proof {
            let next = digits.take(i + 1 - start);
            assert(next.drop_last() =~= digits.take(i - start));
            assert(next.last() == token@[i as int]);
            assert forall|k: int| 0 <= k < next.len() implies is_digit(#[trigger] next[k]) by {
                if k < i - start {
                    assert(digits.take(i - start)[k] == next[k]);
                }
            }
        }
        total = total * 10 + digit;
        assert(total == digits_value(digits.take(i + 1 - start)));
        if total > 2147483648 {
            proof {
                if all_digits(digits) {
                    lemma_digits_grow(digits, i + 1 - start);
                }
            }
            return None;
        }
        i += 1;
    }
    proof {
        assert(digits.take(i - start) =~= digits);
    }
    if negative {
        Some((-total) as i32)
    } else if total > 2147483647 {
        None
    } else {
        Some(total as i32)
    }
}

} // verus!
