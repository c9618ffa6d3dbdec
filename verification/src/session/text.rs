//! Reading plain text: characters, lines, tokens and numbers.
//!
//! Everything here is a function on sequences of characters. The
//! specification functions say what each piece of text is; the executable
//! ones work on slices of characters and return just that.

use vstd::prelude::*;
use vstd::slice::{slice_subrange, slice_to_vec};

verus! {

/// `String::push` appends the given character to the end of the string.
pub assume_specification[ String::push ](s: &mut String, c: char)
    ensures
        final(s)@ == old(s)@.push(c),
;

/// The escape character that opens a terminal control sequence.
pub const ESC: char = '\u{1b}';

// ---------------------------------------------------------------------------
// Strings and characters
// ---------------------------------------------------------------------------

/// The characters of `text`.
pub fn chars_of(text: &str) -> (chars: Vec<char>)
    ensures
        chars@ == text@,
{
    let mut chars: Vec<char> = Vec::new();
    for c in it: text.chars()
        invariant
            chars@ == text@.take(it.index() as int),
            it.seq() == text@,
    {
        chars.push(c);
        assert(chars@ =~= text@.take(it.index() + 1));
    }
    assert(text@.take(text@.len() as int) =~= text@);
    chars
}

/// The string that consists of `chars`.
pub fn string_of(chars: &[char]) -> (text: String)
    ensures
        text@ == chars@,
{
    let mut text = String::new();
    for i in 0..chars.len()
        invariant
            text@ == chars@.take(i as int),
    {
        text.push(chars[i]);
        assert(text@ =~= chars@.take(i + 1));
    }
    assert(chars@.take(chars@.len() as int) =~= chars@);
    text
}

/// Whether `chars` spells `word`.
pub fn spells(chars: &[char], word: &str) -> (same: bool)
    ensures
        same == (chars@ == word@),
{
    let letters = chars_of(word);
    if chars.len() != letters.len() {
        return false;
    }
    for i in 0..chars.len()
        invariant
            letters@ == word@,
            chars@.len() == letters@.len(),
            forall|k: int| 0 <= k < i ==> chars@[k] == letters@[k],
    {
        if chars[i] != letters[i] {
            return false;
        }
    }
    assert(chars@ =~= word@);
    true
}

/// What follows `prefix` in `text`, if `text` begins with it.
pub open spec fn after_prefix(text: Seq<char>, prefix: Seq<char>) -> Option<Seq<char>> {
    if prefix.len() <= text.len() && text.take(prefix.len() as int) == prefix {
        Some(text.skip(prefix.len() as int))
    } else {
        None
    }
}

/// What follows `prefix` in `chars`, if `chars` begins with it.
pub fn strip_prefix<'a>(chars: &'a [char], prefix: &str) -> (rest: Option<&'a [char]>)
    ensures
        match rest {
            Some(rest) => after_prefix(chars@, prefix@) == Some(rest@),
            None => after_prefix(chars@, prefix@) is None,
        },
{
    let letters = chars_of(prefix);
    let n = letters.len();
    if n > chars.len() {
        return None;
    }
    let head = slice_subrange(chars, 0, n);
    assert(head@ =~= chars@.take(n as int));
    if spells(head, prefix) {
        let rest = slice_subrange(chars, n, chars.len());
        assert(rest@ =~= chars@.skip(n as int));
        Some(rest)
    } else {
        None
    }
}

// ---------------------------------------------------------------------------
// Terminal control sequences
// ---------------------------------------------------------------------------

/// A character that ends a control sequence.
pub open spec fn is_final_byte(c: char) -> bool {
    '@' <= c && c <= '~'
}

/// What follows the first final byte of `text`; nothing if there is none.
pub open spec fn after_sequence(text: Seq<char>) -> Seq<char>
    decreases text.len(),
{
    if text.len() == 0 {
        text
    } else if is_final_byte(text[0]) {
        text.skip(1)
    } else {
        after_sequence(text.skip(1))
    }
}

/// `text` without its control sequences (`ESC [` up to a final byte). An
/// `ESC` that is not followed by `[` goes alone.
pub open spec fn stripped(text: Seq<char>) -> Seq<char>
    decreases text.len(),
    via stripped_decreases
{
    if text.len() == 0 {
        text
    } else if text[0] != ESC {
        seq![text[0]] + stripped(text.skip(1))
    } else if text.len() > 1 && text[1] == '[' {
        stripped(after_sequence(text.skip(2)))
    } else {
        stripped(text.skip(1))
    }
}

#[via_fn]
proof fn stripped_decreases(text: Seq<char>) {
    if text.len() > 1 {
        lemma_after_sequence(text.skip(2));
    }
}

proof fn lemma_after_sequence(text: Seq<char>)
    ensures
        after_sequence(text).len() <= text.len(),
        after_sequence(text) == text.skip(text.len() - after_sequence(text).len()),
    decreases text.len(),
{
    if text.len() == 0 {
        assert(text =~= text.skip(0));
    } else if !is_final_byte(text[0]) {
        let tail = text.skip(1);
        lemma_after_sequence(tail);
        assert(tail.skip(tail.len() - after_sequence(tail).len()) =~= text.skip(
            text.len() - after_sequence(tail).len(),
        ));
    }
}

/// The index in `chars` where the text goes on once the control sequence
/// whose parameters start at `from` is over.
fn skip_sequence(chars: &[char], from: usize) -> (end: usize)
    requires
        from <= chars@.len(),
    ensures
        from <= end <= chars@.len(),
        chars@.skip(end as int) == after_sequence(chars@.skip(from as int)),
{
    let mut i = from;
    while i < chars.len()
        invariant
            from <= i <= chars@.len(),
            after_sequence(chars@.skip(i as int)) == after_sequence(chars@.skip(from as int)),
        decreases chars@.len() - i,
    {
        let c = chars[i];
        assert(chars@.skip(i as int)[0] == c);
        assert(chars@.skip(i as int).skip(1) =~= chars@.skip(i + 1));
        i = i + 1;
        if '@' <= c && c <= '~' {
            return i;
        }
    }
    assert(chars@.skip(i as int).len() == 0);
    i
}

/// `chars` without its control sequences.
pub fn strip_sequences(chars: &[char]) -> (out: Vec<char>)
    ensures
        out@ == stripped(chars@),
{
    let mut out: Vec<char> = Vec::new();
    let mut i: usize = 0;
    assert(chars@.skip(0) =~= chars@);
    while i < chars.len()
        invariant
            i <= chars@.len(),
            out@ + stripped(chars@.skip(i as int)) == stripped(chars@),
        decreases chars@.len() - i,
    {
        let c = chars[i];
        let ghost tail = chars@.skip(i as int);
        assert(tail.len() > 0 && tail[0] == c);
        assert(tail.skip(1) =~= chars@.skip(i + 1));
        if c != ESC {
            out.push(c);
            assert(out@ + stripped(tail.skip(1)) =~= out@.drop_last() + (seq![c] + stripped(
                tail.skip(1),
            )));
            i = i + 1;
        } else if i + 1 < chars.len() && chars[i + 1] == '[' {
            assert(tail[1] == '[');
            assert(tail.skip(2) =~= chars@.skip(i + 2));
            i = skip_sequence(chars, i + 2);
        } else {
            i = i + 1;
        }
    }
    assert(out@ + stripped(chars@.skip(i as int)) =~= out@);
    out
}

/// Remove ANSI escape sequences (ESC [ ... final-byte). A bare ESC not
/// followed by `[` drops only the ESC itself; the following character
/// survives.
pub fn strip_ansi(text: &str) -> (out: String)
    ensures
        out@ == stripped(text@),
{
    let chars = chars_of(text);
    let kept = strip_sequences(chars.as_slice());
    string_of(kept.as_slice())
}

/// No escape character survives.
pub proof fn law_stripped_text_has_no_escape(text: Seq<char>)
    ensures
        !stripped(text).contains(ESC),
    decreases text.len(),
{
    if text.len() > 0 {
        let out = stripped(text);
        if text[0] != ESC {
            law_stripped_text_has_no_escape(text.skip(1));
            assert forall|i: int| 0 <= i < out.len() implies out[i] != ESC by {
                if i > 0 {
                    assert(out[i] == stripped(text.skip(1))[i - 1]);
                }
            }
        } else if text.len() > 1 && text[1] == '[' {
            lemma_after_sequence(text.skip(2));
            law_stripped_text_has_no_escape(after_sequence(text.skip(2)));
        } else {
            law_stripped_text_has_no_escape(text.skip(1));
        }
    }
}

/// Text without an escape character is left as it is.
pub proof fn law_plain_text_is_kept(text: Seq<char>)
    requires
        !text.contains(ESC),
    ensures
        stripped(text) == text,
    decreases text.len(),
{
    if text.len() > 0 {
        assert(text[0] != ESC);
        assert forall|i: int| 0 <= i < text.skip(1).len() implies text.skip(1)[i] != ESC by {
            assert(text.skip(1)[i] == text[i + 1]);
        }
        law_plain_text_is_kept(text.skip(1));
        assert(seq![text[0]] + text.skip(1) =~= text);
    }
}

/// Stripping twice is stripping once.
pub proof fn law_stripping_is_idempotent(text: Seq<char>)
    ensures
        stripped(stripped(text)) == stripped(text),
{
    law_stripped_text_has_no_escape(text);
    law_plain_text_is_kept(stripped(text));
}

/// A control sequence is taken out as a unit, whatever surrounds it, where
/// the text before it holds no escape character.
pub proof fn law_sequence_is_removed(
    before: Seq<char>,
    parameters: Seq<char>,
    end: char,
    after: Seq<char>,
)
    requires
        !before.contains('\u{1b}'),
        forall|i: int|
            0 <= i < parameters.len() ==> !('@' <= #[trigger] parameters[i] && parameters[i] <= '~'),
        '@' <= end && end <= '~',
    ensures
        stripped(before + seq!['\u{1b}', '['] + parameters + seq![end] + after) == before + stripped(
            after,
        ),
    decreases before.len(),
{
    let text = before + seq![ESC, '['] + parameters + seq![end] + after;
    if before.len() == 0 {
        assert(text[0] == ESC && text[1] == '[');
        assert(text.skip(2) =~= parameters + seq![end] + after);
        lemma_sequence_end(parameters, end, after);
        assert(before + stripped(after) =~= stripped(after));
    } else {
        let rest = before.skip(1);
        assert(before[0] != ESC);
        assert forall|i: int| 0 <= i < rest.len() implies rest[i] != ESC by {
            assert(rest[i] == before[i + 1]);
        }
        law_sequence_is_removed(rest, parameters, end, after);
        assert(text.skip(1) =~= rest + seq![ESC, '['] + parameters + seq![end] + after);
        assert(seq![before[0]] + (rest + stripped(after)) =~= before + stripped(after));
    }
}

proof fn lemma_sequence_end(parameters: Seq<char>, end: char, after: Seq<char>)
    requires
        forall|i: int| 0 <= i < parameters.len() ==> !is_final_byte(#[trigger] parameters[i]),
        is_final_byte(end),
    ensures
        after_sequence(parameters + seq![end] + after) == after,
    decreases parameters.len(),
{
    let text = parameters + seq![end] + after;
    if parameters.len() == 0 {
        assert(text[0] == end);
        assert(text.skip(1) =~= after);
    } else {
        assert(text[0] == parameters[0]);
        let rest = parameters.skip(1);
        assert forall|i: int| 0 <= i < rest.len() implies !is_final_byte(#[trigger] rest[i]) by {
            assert(rest[i] == parameters[i + 1]);
        }
        lemma_sequence_end(rest, end, after);
        assert(text.skip(1) =~= rest + seq![end] + after);
    }
}

// ---------------------------------------------------------------------------
// White space
// ---------------------------------------------------------------------------

/// The characters with Unicode's White_Space property.
pub open spec fn is_white_space(c: char) -> bool {
    ||| '\u{9}' <= c && c <= '\u{d}'
    ||| c == '\u{20}'
    ||| c == '\u{85}'
    ||| c == '\u{a0}'
    ||| c == '\u{1680}'
    ||| '\u{2000}' <= c && c <= '\u{200a}'
    ||| c == '\u{2028}'
    ||| c == '\u{2029}'
    ||| c == '\u{202f}'
    ||| c == '\u{205f}'
    ||| c == '\u{3000}'
}

/// Whether `c` has Unicode's White_Space property.
pub fn white_space(c: char) -> (white: bool)
    ensures
        white == is_white_space(c),
{
    ('\u{9}' <= c && c <= '\u{d}') || c == '\u{20}' || c == '\u{85}' || c == '\u{a0}' || c
        == '\u{1680}' || ('\u{2000}' <= c && c <= '\u{200a}') || c == '\u{2028}' || c == '\u{2029}'
        || c == '\u{202f}' || c == '\u{205f}' || c == '\u{3000}'
}

/// `text` without its leading white space.
pub open spec fn trim_start(text: Seq<char>) -> Seq<char>
    decreases text.len(),
{
    if text.len() > 0 && is_white_space(text[0]) {
        trim_start(text.skip(1))
    } else {
        text
    }
}

/// `text` without its trailing white space.
pub open spec fn trim_end(text: Seq<char>) -> Seq<char>
    decreases text.len(),
{
    if text.len() > 0 && is_white_space(text.last()) {
        trim_end(text.drop_last())
    } else {
        text
    }
}

/// `text` without white space at either end.
pub open spec fn trimmed(text: Seq<char>) -> Seq<char> {
    trim_end(trim_start(text))
}

fn trim_front<'a>(chars: &'a [char]) -> (rest: &'a [char])
    ensures
        rest@ == trim_start(chars@),
{
    let mut i: usize = 0;
    assert(chars@.skip(0) =~= chars@);
    while i < chars.len() && white_space(chars[i])
        invariant
            i <= chars@.len(),
            trim_start(chars@.skip(i as int)) == trim_start(chars@),
        decreases chars@.len() - i,
    {
        assert(chars@.skip(i as int).skip(1) =~= chars@.skip(i + 1));
        i = i + 1;
    }
    let rest = slice_subrange(chars, i, chars.len());
    assert(rest@ =~= chars@.skip(i as int));
    rest
}

fn trim_back<'a>(chars: &'a [char]) -> (rest: &'a [char])
    ensures
        rest@ == trim_end(chars@),
{
    let mut n: usize = chars.len();
    assert(chars@.take(n as int) =~= chars@);
    while n > 0 && white_space(chars[n - 1])
        invariant
            n <= chars@.len(),
            trim_end(chars@.take(n as int)) == trim_end(chars@),
        decreases n,
    {
        assert(chars@.take(n as int).drop_last() =~= chars@.take(n - 1));
        n = n - 1;
    }
    let rest = slice_subrange(chars, 0, n);
    assert(rest@ =~= chars@.take(n as int));
    rest
}

/// `chars` without white space at either end.
pub fn trim<'a>(chars: &'a [char]) -> (rest: &'a [char])
    ensures
        rest@ == trimmed(chars@),
{
    trim_back(trim_front(chars))
}

// ---------------------------------------------------------------------------
// Cutting text at a character
// ---------------------------------------------------------------------------

/// The index of the first `c` in `text`, or its length if there is none.
pub open spec fn first_index(text: Seq<char>, c: char) -> nat
    decreases text.len(),
{
    if text.len() == 0 || text[0] == c {
        0
    } else {
        1 + first_index(text.skip(1), c)
    }
}

proof fn lemma_first_index(text: Seq<char>, c: char)
    ensures
        first_index(text, c) <= text.len(),
        first_index(text, c) < text.len() <==> text.contains(c),
        first_index(text, c) < text.len() ==> text[first_index(text, c) as int] == c,
        forall|i: int| 0 <= i < first_index(text, c) ==> #[trigger] text[i] != c,
    decreases text.len(),
{
    if text.len() > 0 {
        let tail = text.skip(1);
        if text[0] != c {
            lemma_first_index(tail, c);
            assert forall|i: int| 0 <= i < first_index(text, c) implies #[trigger] text[i] != c by {
                if i > 0 {
                    assert(tail[i - 1] == text[i]);
                }
            }
            if text.contains(c) {
                let k = choose|k: int| 0 <= k < text.len() && text[k] == c;
                assert(tail[k - 1] == c);
            }
        }
    }
}

/// The part of `text` before the first `c`, or all of it.
pub open spec fn before_char(text: Seq<char>, c: char) -> Seq<char> {
    text.take(first_index(text, c) as int)
}

/// The part of `text` after the first `c`, if there is one.
pub open spec fn after_char(text: Seq<char>, c: char) -> Option<Seq<char>> {
    if text.contains(c) {
        Some(text.skip(first_index(text, c) as int + 1))
    } else {
        None
    }
}

fn find_char(chars: &[char], c: char) -> (index: usize)
    ensures
        index == first_index(chars@, c),
        index <= chars@.len(),
        index < chars@.len() <==> chars@.contains(c),
{
    let mut i: usize = 0;
    assert(chars@.skip(0) =~= chars@);
    while i < chars.len() && chars[i] != c
        invariant
            i <= chars@.len(),
            i + first_index(chars@.skip(i as int), c) == first_index(chars@, c),
        decreases chars@.len() - i,
    {
        assert(chars@.skip(i as int).skip(1) =~= chars@.skip(i + 1));
        i = i + 1;
    }
    proof {
        lemma_first_index(chars@, c);
    }
    i
}

/// The part before the first `c` and, if there is one, the part after it.
pub fn split_at_char<'a>(chars: &'a [char], c: char) -> (parts: (&'a [char], Option<&'a [char]>))
    ensures
        parts.0@ == before_char(chars@, c),
        match parts.1 {
            Some(rest) => after_char(chars@, c) == Some(rest@),
            None => after_char(chars@, c) is None,
        },
{
    let n = find_char(chars, c);
    let head = slice_subrange(chars, 0, n);
    assert(head@ =~= chars@.take(n as int));
    if n < chars.len() {
        let tail = slice_subrange(chars, n + 1, chars.len());
        assert(tail@ =~= chars@.skip(n + 1));
        (head, Some(tail))
    } else {
        (head, None)
    }
}

/// A part without `c`, a `c`, and the rest: the first `c` is where they meet.
pub proof fn lemma_cut(head: Seq<char>, c: char, tail: Seq<char>)
    requires
        !head.contains(c),
    ensures
        before_char(head + seq![c] + tail, c) == head,
        after_char(head + seq![c] + tail, c) == Some(tail),
{
    let text = head + seq![c] + tail;
    lemma_first_index(text, c);
    assert(text[head.len() as int] == c);
    let n = first_index(text, c) as int;
    if n < head.len() {
        assert(head[n] == c);
    }
    if n > head.len() {
        assert(text[head.len() as int] != c);
    }
    assert(text.take(n) =~= head);
    assert(text.skip(n + 1) =~= tail);
}

/// Text without `c` is its own first part.
pub proof fn lemma_no_cut(text: Seq<char>, c: char)
    requires
        !text.contains(c),
    ensures
        before_char(text, c) == text,
        after_char(text, c) is None,
{
    lemma_first_index(text, c);
    assert(text.take(text.len() as int) =~= text);
}

// ---------------------------------------------------------------------------
// Lines
// ---------------------------------------------------------------------------

/// The lines of `text`: what lies between line feeds, without white space at
/// either end (a carriage return before the line feed is white space too).
pub open spec fn trimmed_lines(text: Seq<char>) -> Seq<Seq<char>>
    decreases text.len(),
    via trimmed_lines_decreases
{
    if text.len() == 0 {
        Seq::empty()
    } else {
        match after_char(text, '\n') {
            Some(rest) => seq![trimmed(before_char(text, '\n'))] + trimmed_lines(rest),
            None => seq![trimmed(text)],
        }
    }
}

#[via_fn]
proof fn trimmed_lines_decreases(text: Seq<char>) {
    lemma_first_index(text, '\n');
}

/// The lines of `chars`, without white space at either end.
pub fn read_trimmed_lines(chars: &[char]) -> (lines: Vec<Vec<char>>)
    ensures
        lines@.map_values(|line: Vec<char>| line@) == trimmed_lines(chars@),
{
    let mut lines: Vec<Vec<char>> = Vec::new();
    let mut rest = chars;
    assert(lines@.map_values(|line: Vec<char>| line@) + trimmed_lines(chars@) =~= trimmed_lines(
        chars@,
    ));
    while rest.len() > 0
        invariant
            lines@.map_values(|line: Vec<char>| line@) + trimmed_lines(rest@) == trimmed_lines(
                chars@,
            ),
        decreases rest@.len(),
    {
        let ghost before = lines@;
        let (head, tail) = split_at_char(rest, '\n');
        let line = slice_to_vec(trim(head));
        lines.push(line);
        proof {
            lemma_first_index(rest@, '\n');
            lemma_no_line_feed(rest@);
            assert(lines@.map_values(|line: Vec<char>| line@) =~= before.map_values(
                |line: Vec<char>| line@,
            ).push(line@));
        }
        match tail {
            Some(tail) => {
                assert(lines@.map_values(|line: Vec<char>| line@) + trimmed_lines(tail@)
                    =~= before.map_values(|line: Vec<char>| line@) + (seq![line@] + trimmed_lines(
                    tail@,
                )));
                rest = tail;
            },
            None => {
                assert(lines@.map_values(|line: Vec<char>| line@) =~= before.map_values(
                    |line: Vec<char>| line@,
                ) + seq![line@]);
                return lines;
            },
        }
    }
    assert(lines@.map_values(|line: Vec<char>| line@) + trimmed_lines(rest@) =~= lines@.map_values(
        |line: Vec<char>| line@,
    ));
    lines
}

proof fn lemma_no_line_feed(text: Seq<char>)
    ensures
        after_char(text, '\n') is None ==> before_char(text, '\n') == text,
{
    if !text.contains('\n') {
        lemma_no_cut(text, '\n');
    }
}

// ---------------------------------------------------------------------------
// Tokens
// ---------------------------------------------------------------------------

/// The characters of `text` up to the first white space.
pub open spec fn leading_token(text: Seq<char>) -> Seq<char>
    decreases text.len(),
{
    if text.len() == 0 || is_white_space(text[0]) {
        Seq::empty()
    } else {
        seq![text[0]] + leading_token(text.skip(1))
    }
}

/// What follows the first run of characters that are no white space.
pub open spec fn after_token(text: Seq<char>) -> Seq<char>
    decreases text.len(),
{
    if text.len() == 0 || is_white_space(text[0]) {
        text
    } else {
        after_token(text.skip(1))
    }
}

/// The first of the tokens that white space separates; empty if there is
/// none.
pub open spec fn first_token(text: Seq<char>) -> Seq<char> {
    leading_token(trim_start(text))
}

/// The second of the tokens that white space separates; empty if there is
/// none.
pub open spec fn second_token(text: Seq<char>) -> Seq<char> {
    first_token(after_token(trim_start(text)))
}

/// The first token of `chars` and what follows it.
fn split_token<'a>(chars: &'a [char]) -> (parts: (&'a [char], &'a [char]))
    ensures
        parts.0@ == first_token(chars@),
        parts.1@ == after_token(trim_start(chars@)),
{
    let text = trim_front(chars);
    let mut i: usize = 0;
    assert(text@.skip(0) =~= text@);
    assert(text@.take(0) + leading_token(text@) =~= leading_token(text@));
    while i < text.len() && !white_space(text[i])
        invariant
            i <= text@.len(),
            text@.take(i as int) + leading_token(text@.skip(i as int)) == leading_token(text@),
            after_token(text@.skip(i as int)) == after_token(text@),
        decreases text@.len() - i,
    {
        let ghost tail = text@.skip(i as int);
        assert(tail[0] == text@[i as int]);
        assert(tail.skip(1) =~= text@.skip(i + 1));
        assert(text@.take(i + 1) + leading_token(tail.skip(1)) =~= text@.take(i as int) + (
        seq![tail[0]] + leading_token(tail.skip(1))));
        i = i + 1;
    }
    let token = slice_subrange(text, 0, i);
    let rest = slice_subrange(text, i, text.len());
    assert(token@ =~= text@.take(i as int) + leading_token(text@.skip(i as int)));
    assert(rest@ =~= text@.skip(i as int));
    (token, rest)
}

/// The first two tokens of `chars`.
pub fn first_two_tokens<'a>(chars: &'a [char]) -> (tokens: (&'a [char], &'a [char]))
    ensures
        tokens.0@ == first_token(chars@),
        tokens.1@ == second_token(chars@),
{
    let (first, rest) = split_token(chars);
    let (second, _) = split_token(rest);
    (first, second)
}

// ---------------------------------------------------------------------------
// Numbers
// ---------------------------------------------------------------------------

pub open spec fn is_digit(c: char) -> bool {
    '0' <= c && c <= '9'
}

/// A decimal number without a sign: at least one digit and nothing else.
pub open spec fn is_decimal(text: Seq<char>) -> bool {
    text.len() > 0 && forall|i: int| 0 <= i < text.len() ==> is_digit(#[trigger] text[i])
}

/// The value of a decimal number without a sign.
pub open spec fn decimal_value(digits: Seq<char>) -> int
    decreases digits.len(),
{
    if digits.len() == 0 {
        0
    } else {
        10 * decimal_value(digits.drop_last()) + (digits.last() as int - '0' as int)
    }
}

/// The number that `text` spells in decimal, if it spells one: digits,
/// after an optional `+` or, where `negative` numbers are read, `-`.
pub open spec fn number(text: Seq<char>, negative: bool) -> Option<int> {
    if text.len() > 0 && text[0] == '+' && is_decimal(text.skip(1)) {
        Some(decimal_value(text.skip(1)))
    } else if negative && text.len() > 0 && text[0] == '-' && is_decimal(text.skip(1)) {
        Some(-decimal_value(text.skip(1)))
    } else if is_decimal(text) {
        Some(decimal_value(text))
    } else {
        None
    }
}

/// The 32-bit signed number that `text` spells; zero where it spells none
/// or one out of range.
pub open spec fn signed_or_zero(text: Seq<char>) -> int {
    match number(text, true) {
        Some(n) if i32::MIN <= n <= i32::MAX => n,
        _ => 0,
    }
}

/// The 32-bit unsigned number that `text` spells, if it spells one in range.
pub open spec fn unsigned(text: Seq<char>) -> Option<int> {
    match number(text, false) {
        Some(n) if 0 <= n <= u32::MAX => Some(n),
        _ => None,
    }
}

proof fn lemma_decimal_take(digits: Seq<char>, n: int)
    requires
        is_decimal(digits),
        0 <= n <= digits.len(),
    ensures
        0 <= decimal_value(digits.take(n)) <= decimal_value(digits),
    decreases digits.len(),
{
    let front = digits.drop_last();
    assert(is_digit(digits[digits.len() - 1]));
    if digits.len() == 1 {
        assert(front =~= Seq::empty());
    } else {
        assert forall|i: int| 0 <= i < front.len() implies is_digit(#[trigger] front[i]) by {
            assert(is_digit(digits[i]));
        }
    }
    let last = digits.last() as int - '0' as int;
    assert(0 <= last);
    assert(decimal_value(digits) == 10 * decimal_value(front) + last);
    if n == digits.len() {
        assert(digits.take(n) =~= digits);
        if front.len() > 0 {
            lemma_decimal_take(front, front.len() as int);
            assert(front.take(front.len() as int) =~= front);
        }
    } else if front.len() > 0 {
        lemma_decimal_take(front, n);
        assert(front.take(n) =~= digits.take(n));
    } else {
        assert(digits.take(n) =~= Seq::empty());
    }
}

/// The value of a decimal number without a sign, if `digits` is one and its
/// value is at most `limit`.
fn read_decimal(digits: &[char], limit: u64) -> (value: Option<u64>)
    requires
        limit <= 0x1_0000_0000,
    ensures
        match value {
            Some(v) => is_decimal(digits@) && v == decimal_value(digits@) && v <= limit,
            None => is_decimal(digits@) ==> decimal_value(digits@) > limit,
        },
{
    if digits.len() == 0 {
        return None;
    }
    let mut value: u64 = 0;
    for i in 0..digits.len()
        invariant
            limit <= 0x1_0000_0000,
            value <= limit,
            value == decimal_value(digits@.take(i as int)),
            forall|k: int| 0 <= k < i ==> is_digit(#[trigger] digits@[k]),
    {
        let c = digits[i];
        if !('0' <= c && c <= '9') {
            assert(!is_digit(digits@[i as int]));
            return None;
        }
        assert(digits@.take(i + 1).drop_last() =~= digits@.take(i as int));
        value = 10 * value + (c as u64 - '0' as u64);
        if value > limit {
            proof {
                if is_decimal(digits@) {
                    lemma_decimal_take(digits@, i + 1);
                }
            }
            return None;
        }
    }
    assert(digits@.take(digits@.len() as int) =~= digits@);
    Some(value)
}

/// The 32-bit signed number that `chars` spells; zero where it spells none
/// or one out of range.
pub fn read_signed(chars: &[char]) -> (value: i32)
    ensures
        value == signed_or_zero(chars@),
{
    if chars.len() > 0 && (chars[0] == '+' || chars[0] == '-') {
        let digits = slice_subrange(chars, 1, chars.len());
        assert(digits@ =~= chars@.skip(1));
        assert(!is_decimal(chars@)) by {
            assert(!is_digit(chars@[0]));
        }
        if chars[0] == '-' {
            match read_decimal(digits, 0x8000_0000) {
                Some(v) => (0 - v as i64) as i32,
                None => 0,
            }
        } else {
            match read_decimal(digits, 0x7fff_ffff) {
                Some(v) => v as i32,
                None => 0,
            }
        }
    } else {
        match read_decimal(chars, 0x7fff_ffff) {
            Some(v) => v as i32,
            None => 0,
        }
    }
}

/// The 32-bit unsigned number that `chars` spells, if it spells one in
/// range.
pub fn read_unsigned(chars: &[char]) -> (value: Option<u32>)
    ensures
        match value {
            Some(v) => unsigned(chars@) == Some(v as int),
            None => unsigned(chars@) is None,
        },
{
    let signed = chars.len() > 0 && chars[0] == '+';
    let digits = if signed {
        slice_subrange(chars, 1, chars.len())
    } else {
        chars
    };
    proof {
        if signed {
            assert(digits@ =~= chars@.skip(1));
            assert(!is_digit(chars@[0]));
        }
    }
    match read_decimal(digits, 0xffff_ffff) {
        Some(v) => Some(v as u32),
        None => None,
    }
}

/// The decimal digit of value `n`.
pub open spec fn digit(n: int) -> char {
    (n + '0' as int) as char
}

/// The digits of `n`, most significant first, without leading zeros.
pub open spec fn digits_of(n: nat) -> Seq<char>
    decreases n,
{
    if n < 10 {
        seq![digit(n as int)]
    } else {
        digits_of(n / 10).push(digit((n % 10) as int))
    }
}

/// `n` in decimal, with a `-` in front where it is negative.
pub open spec fn decimal(n: int) -> Seq<char> {
    if n < 0 {
        seq!['-'] + digits_of((-n) as nat)
    } else {
        digits_of(n as nat)
    }
}

/// The digits of `n`.
fn write_digits(n: u32) -> (digits: Vec<char>)
    ensures
        digits@ == digits_of(n as nat),
    decreases n,
{
    if n < 10 {
        let mut digits: Vec<char> = Vec::new();
        digits.push((n as u8 + 48) as char);
        assert(digits@ =~= seq![digit(n as int)]);
        digits
    } else {
        let mut digits = write_digits(n / 10);
        digits.push(((n % 10) as u8 + 48) as char);
        digits
    }
}

/// `n` in decimal.
pub fn write_signed(n: i32) -> (text: String)
    ensures
        text@ == decimal(n as int),
{
    let size: u32 = if n < 0 {
        (0 - n as i64) as u32
    } else {
        n as u32
    };
    let digits = string_of(write_digits(size).as_slice());
    if n < 0 {
        let mut text = String::new();
        text.push('-');
        let text = text.concat(digits.as_str());
        assert(text@ =~= decimal(n as int));
        text
    } else {
        digits
    }
}

proof fn lemma_digits_of(n: nat)
    ensures
        is_decimal(digits_of(n)),
        decimal_value(digits_of(n)) == n,
    decreases n,
{
    let digits = digits_of(n);
    assert(digits.last() == digit((n % 10) as int));
    assert(decimal_value(digits) == 10 * decimal_value(digits.drop_last()) + n % 10);
    if n < 10 {
        assert(digits.drop_last() =~= Seq::empty());
    } else {
        lemma_digits_of(n / 10);
        assert(digits.drop_last() =~= digits_of(n / 10));
        assert forall|i: int| 0 <= i < digits.len() implies is_digit(#[trigger] digits[i]) by {
            if i < digits.len() - 1 {
                assert(is_digit(digits_of(n / 10)[i]));
            }
        }
    }
}

/// A number that was written reads back as itself.
pub proof fn law_written_numbers_read_back(n: int)
    requires
        i32::MIN <= n <= i32::MAX,
    ensures
        signed_or_zero(decimal(n)) == n,
{
    if n < 0 {
        let digits = digits_of((-n) as nat);
        lemma_digits_of((-n) as nat);
        assert(decimal(n)[0] == '-');
        assert(decimal(n).skip(1) =~= digits);
    } else {
        lemma_digits_of(n as nat);
        assert(is_digit(decimal(n)[0]));
    }
}

// ---------------------------------------------------------------------------
// What reading text means
// ---------------------------------------------------------------------------

/// A character other than an escape survives, whatever follows it.
pub proof fn law_ordinary_character_survives(c: char, rest: Seq<char>)
    requires
        c != '\u{1b}',
    ensures
        stripped(seq![c] + rest) == seq![c] + stripped(rest),
{
    assert((seq![c] + rest).skip(1) =~= rest);
}

/// An escape that opens no control sequence goes alone: the character after
/// it survives.
pub proof fn law_bare_escape_goes_alone(rest: Seq<char>)
    requires
        rest.len() == 0 || rest[0] != '[',
    ensures
        stripped(seq!['\u{1b}'] + rest) == stripped(rest),
{
    let text = seq!['\u{1b}'] + rest;
    assert(text.skip(1) =~= rest);
    if rest.len() > 0 {
        assert(text[1] == rest[0]);
    }
}

/// A control sequence that never ends takes the rest of the text with it.
pub proof fn law_unended_sequence_takes_the_rest(parameters: Seq<char>)
    requires
        forall|i: int|
            0 <= i < parameters.len() ==> !('@' <= #[trigger] parameters[i] && parameters[i] <= '~'),
    ensures
        stripped(seq!['\u{1b}', '['] + parameters) == Seq::<char>::empty(),
{
    let text = seq!['\u{1b}', '['] + parameters;
    assert(text[0] == ESC && text[1] == '[');
    assert(text.skip(2) =~= parameters);
    lemma_no_end(parameters);
    assert(stripped(Seq::<char>::empty()) =~= Seq::empty());
}

proof fn lemma_no_end(parameters: Seq<char>)
    requires
        forall|i: int| 0 <= i < parameters.len() ==> !is_final_byte(#[trigger] parameters[i]),
    ensures
        after_sequence(parameters) == Seq::<char>::empty(),
    decreases parameters.len(),
{
    if parameters.len() > 0 {
        let rest = parameters.skip(1);
        assert forall|i: int| 0 <= i < rest.len() implies !is_final_byte(#[trigger] rest[i]) by {
            assert(rest[i] == parameters[i + 1]);
        }
        lemma_no_end(rest);
    } else {
        assert(parameters =~= Seq::empty());
    }
}

/// White space is what Unicode says it is, by code point.
pub proof fn law_white_space(c: char)
    ensures
        is_white_space(c) <==> ({
            let code = c as u32;
            ||| 9 <= code <= 13
            ||| code == 32
            ||| code == 133
            ||| code == 160
            ||| code == 5760
            ||| 8192 <= code <= 8202
            ||| code == 8232
            ||| code == 8233
            ||| code == 8239
            ||| code == 8287
            ||| code == 12288
        }),
{
}

/// Every character of `text` is white space.
pub open spec fn is_blank(text: Seq<char>) -> bool {
    forall|i: int| 0 <= i < text.len() ==> is_white_space(#[trigger] text[i])
}

/// Trimming takes off the white space at both ends and nothing else.
pub proof fn law_trimming(lead: Seq<char>, core: Seq<char>, tail: Seq<char>)
    requires
        is_blank(lead),
        is_blank(tail),
        core.len() > 0 ==> !is_white_space(core[0]) && !is_white_space(core.last()),
    ensures
        trimmed(lead + core + tail) == core,
{
    lemma_trim_start(lead, core + tail);
    assert(lead + core + tail =~= lead + (core + tail));
    if core.len() == 0 {
        assert(core + tail =~= tail);
        lemma_trim_start(tail, Seq::empty());
        assert(tail + Seq::<char>::empty() =~= tail);
        assert(trim_end(Seq::<char>::empty()) =~= core);
    } else {
        assert((core + tail)[0] == core[0]);
        lemma_trim_end(core, tail);
    }
}

proof fn lemma_trim_start(lead: Seq<char>, rest: Seq<char>)
    requires
        is_blank(lead),
    ensures
        trim_start(lead + rest) == trim_start(rest),
    decreases lead.len(),
{
    if lead.len() == 0 {
        assert(lead + rest =~= rest);
    } else {
        assert((lead + rest)[0] == lead[0]);
        assert((lead + rest).skip(1) =~= lead.skip(1) + rest);
        assert forall|i: int| 0 <= i < lead.skip(1).len() implies is_white_space(
            #[trigger] lead.skip(1)[i],
        ) by {
            assert(lead.skip(1)[i] == lead[i + 1]);
        }
        lemma_trim_start(lead.skip(1), rest);
    }
}

proof fn lemma_trim_end(core: Seq<char>, tail: Seq<char>)
    requires
        is_blank(tail),
        core.len() > 0,
        !is_white_space(core.last()),
    ensures
        trim_end(core + tail) == core,
    decreases tail.len(),
{
    let text = core + tail;
    if tail.len() == 0 {
        assert(text =~= core);
    } else {
        assert(text.last() == tail[tail.len() - 1]);
        assert(text.drop_last() =~= core + tail.drop_last());
        assert forall|i: int| 0 <= i < tail.drop_last().len() implies is_white_space(
            #[trigger] tail.drop_last()[i],
        ) by {
            assert(tail.drop_last()[i] == tail[i]);
        }
        lemma_trim_end(core, tail.drop_last());
    }
}

/// A line feed ends a line; what follows it is read as if it stood alone.
/// Text without one is a single line, and no text is no line.
pub proof fn law_lines(line: Seq<char>, rest: Seq<char>)
    requires
        !line.contains('\n'),
    ensures
        trimmed_lines(line + seq!['\n'] + rest) == seq![trimmed(line)] + trimmed_lines(rest),
        line.len() > 0 ==> trimmed_lines(line) == seq![trimmed(line)],
        trimmed_lines(Seq::empty()) == Seq::<Seq<char>>::empty(),
{
    lemma_cut(line, '\n', rest);
    lemma_no_cut(line, '\n');
}

/// Cutting at a character cuts at the first one: nothing before it holds the
/// character, and the parts make up the text.
pub proof fn law_cut_is_at_the_first(text: Seq<char>, c: char)
    ensures
        match after_char(text, c) {
            Some(rest) => text == before_char(text, c) + seq![c] + rest && !before_char(
                text,
                c,
            ).contains(c),
            None => !text.contains(c) && before_char(text, c) == text,
        },
{
    lemma_first_index(text, c);
    if text.contains(c) {
        let n = first_index(text, c) as int;
        let head = before_char(text, c);
        assert(text =~= head + seq![c] + text.skip(n + 1));
        if head.contains(c) {
            let k = choose|k: int| 0 <= k < head.len() && head[k] == c;
            assert(text[k] == c);
        }
    } else {
        lemma_no_cut(text, c);
    }
}

/// What follows a prefix is what stands behind it; other text has none.
pub proof fn law_prefix(prefix: Seq<char>, rest: Seq<char>, text: Seq<char>)
    ensures
        after_prefix(prefix + rest, prefix) == Some(rest),
        after_prefix(text, prefix) matches Some(behind) ==> text == prefix + behind,
{
    assert((prefix + rest).take(prefix.len() as int) =~= prefix);
    assert((prefix + rest).skip(prefix.len() as int) =~= rest);
    if after_prefix(text, prefix) is Some {
        assert(text =~= text.take(prefix.len() as int) + text.skip(prefix.len() as int));
    }
}

/// Tokens are the runs of characters between white space: the first one ends
/// where white space or the text does, and the second is the first of the
/// rest.
pub proof fn law_tokens(lead: Seq<char>, token: Seq<char>, rest: Seq<char>)
    requires
        is_blank(lead),
        token.len() > 0,
        forall|i: int| 0 <= i < token.len() ==> !is_white_space(#[trigger] token[i]),
        rest.len() > 0 ==> is_white_space(rest[0]),
    ensures
        first_token(lead + token + rest) == token,
        second_token(lead + token + rest) == first_token(rest),
        first_token(lead) == Seq::<char>::empty(),
{
    lemma_trim_start(lead, token + rest);
    assert(lead + token + rest =~= lead + (token + rest));
    assert((token + rest)[0] == token[0]);
    lemma_token(token, rest);
    lemma_trim_start(lead, Seq::empty());
    assert(lead + Seq::<char>::empty() =~= lead);
    assert(leading_token(Seq::<char>::empty()) =~= Seq::empty());
}

proof fn lemma_token(token: Seq<char>, rest: Seq<char>)
    requires
        forall|i: int| 0 <= i < token.len() ==> !is_white_space(#[trigger] token[i]),
        rest.len() > 0 ==> is_white_space(rest[0]),
    ensures
        leading_token(token + rest) == token,
        after_token(token + rest) == rest,
    decreases token.len(),
{
    let text = token + rest;
    if token.len() == 0 {
        assert(text =~= rest);
        assert(leading_token(text) =~= token);
    } else {
        assert(text[0] == token[0]);
        assert(text.skip(1) =~= token.skip(1) + rest);
        assert forall|i: int| 0 <= i < token.skip(1).len() implies !is_white_space(
            #[trigger] token.skip(1)[i],
        ) by {
            assert(token.skip(1)[i] == token[i + 1]);
        }
        lemma_token(token.skip(1), rest);
        assert(seq![token[0]] + token.skip(1) =~= token);
    }
}

/// Digits count by place: one more digit makes the number ten times as large
/// and adds the digit.
pub proof fn law_digits_count_by_place(digits: Seq<char>, c: char)
    ensures
        decimal_value(Seq::empty()) == 0,
        decimal_value(digits.push(c)) == 10 * decimal_value(digits) + (c as int - 48),
{
    assert(digits.push(c).drop_last() =~= digits);
}

/// Digits read as the number they spell, with either sign in front of them,
/// as far as it fits; text that is anything else reads as none.
pub proof fn law_numbers_read(digits: Seq<char>)
    requires
        digits.len() > 0,
        forall|i: int| 0 <= i < digits.len() ==> '0' <= #[trigger] digits[i] && digits[i] <= '9',
    ensures
        ({
            let value = decimal_value(digits);
            &&& signed_or_zero(digits) == if value <= 2147483647 { value } else { 0 }
            &&& signed_or_zero(seq!['+'] + digits) == if value <= 2147483647 { value } else { 0 }
            &&& signed_or_zero(seq!['-'] + digits) == if value <= 2147483648 { -value } else { 0 }
            &&& unsigned(digits) == if value <= 4294967295 { Some(value) } else { None }
            &&& unsigned(seq!['+'] + digits) == unsigned(digits)
            &&& unsigned(seq!['-'] + digits) is None
        }),
{
    assert(is_decimal(digits));
    lemma_decimal_take(digits, 0);
    let plus = seq!['+'] + digits;
    let minus = seq!['-'] + digits;
    assert(plus.skip(1) =~= digits);
    assert(minus.skip(1) =~= digits);
    assert(is_digit(digits[0]));
    assert(!is_digit(plus[0]));
    assert(!is_digit(minus[0]));
}

/// Text with a character that is no digit, other than one sign in front, or
/// without any digit, spells no number.
pub proof fn law_other_text_is_no_number(text: Seq<char>)
    requires
        ({
            let start: int = if text.len() > 0 && (text[0] == '+' || text[0] == '-') { 1 } else { 0 };
            text.len() == start || exists|i: int|
                start <= i < text.len() && !('0' <= #[trigger] text[i] && text[i] <= '9')
        }),
    ensures
        signed_or_zero(text) == 0,
        unsigned(text) is None,
{
    let start: int = if text.len() > 0 && (text[0] == '+' || text[0] == '-') { 1 } else { 0 };
    if text.len() != start {
        let i = choose|i: int|
            start <= i < text.len() && !('0' <= #[trigger] text[i] && text[i] <= '9');
        assert(!is_digit(text[i]));
        if start == 1 {
            assert(!is_digit(text.skip(1)[i - 1]));
        }
    }
    if start == 1 {
        assert(!is_digit(text[0]));
    }
}

/// A number is written with digits alone after its sign, and no zero leads.
pub proof fn law_written_numbers_are_plain(n: int)
    ensures
        n >= 0 ==> is_decimal(decimal(n)) && decimal_value(decimal(n)) == n,
        n < 0 ==> decimal(n) == seq!['-'] + decimal(-n),
        n > 0 ==> decimal(n)[0] != '0',
{
    if n >= 0 {
        lemma_digits_of(n as nat);
        if n > 0 {
            lemma_no_leading_zero(n as nat);
        }
    }
}

proof fn lemma_no_leading_zero(n: nat)
    requires
        n > 0,
    ensures
        digits_of(n).len() > 0,
        digits_of(n)[0] != '0',
    decreases n,
{
    if n >= 10 {
        lemma_no_leading_zero(n / 10);
    }
}

} // verus!
