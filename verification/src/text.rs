//! Reading the two input texts.
//!
//! An offcuts text is a run of numbers separated by white space. A
//! requirements text has one requirement on a line: the length of the beam,
//! then the weld budgets to try. Words that are no numbers are passed over;
//! a line whose first mark is `#` is a comment.

use crate::pool::{longest_first, sort_descending};
use crate::requirements::{
    is_largest_first, of_size, sort_largest_first, views, BeamRequires, Requirement,
};
use vstd::prelude::*;
use vstd::std_specs::iter::IteratorSpec;

verus! {

/// Whether `c` is white space: one of the characters with the Unicode
/// property White_Space.
pub open spec fn is_space(c: char) -> bool {
    let code = c as u32;
    ||| 0x09 <= code <= 0x0D
    ||| code == 0x20
    ||| code == 0x85
    ||| code == 0xA0
    ||| code == 0x1680
    ||| 0x2000 <= code <= 0x200A
    ||| code == 0x2028
    ||| code == 0x2029
    ||| code == 0x202F
    ||| code == 0x205F
    ||| code == 0x3000
}

/// Whether `c` is one of the ten decimal digits.
pub open spec fn is_digit(c: char) -> bool {
    0x30 <= c as u32 <= 0x39
}

/// The number that a run of decimal digits writes.
pub open spec fn digits_value(digits: Seq<char>) -> int
    decreases digits.len(),
{
    if digits.len() == 0 {
        0
    } else {
        10 * digits_value(digits.drop_last()) + (digits.last() as u32 - 0x30)
    }
}

/// Whether every character is a decimal digit.
pub open spec fn all_digits(digits: Seq<char>) -> bool {
    forall|k: int| 0 <= k < digits.len() ==> is_digit(#[trigger] digits[k])
}

/// The word without the plus sign that may lead it.
pub open spec fn unsigned(word: Seq<char>) -> Seq<char> {
    if word.len() > 0 && word[0] == '+' {
        word.drop_first()
    } else {
        word
    }
}

/// The number that a word writes: decimal digits, at least one, after an
/// optional plus sign, and no more than a `usize` holds. Any other word
/// writes none.
pub open spec fn number(word: Seq<char>) -> Option<usize> {
    let digits = unsigned(word);
    if digits.len() > 0 && all_digits(digits) && digits_value(digits) <= usize::MAX {
        Some(digits_value(digits) as usize)
    } else {
        None
    }
}

/// The number of characters before the first white space.
pub open spec fn word_len(text: Seq<char>) -> nat
    decreases text.len(),
{
    if text.len() == 0 || is_space(text[0]) {
        0
    } else {
        1 + word_len(text.drop_first())
    }
}

/// The number of characters before the first line break.
pub open spec fn line_len(text: Seq<char>) -> nat
    decreases text.len(),
{
    if text.len() == 0 || text[0] == '\n' {
        0
    } else {
        1 + line_len(text.drop_first())
    }
}

/// The words of a text: its longest runs without white space, in order.
pub open spec fn words(text: Seq<char>) -> Seq<Seq<char>>
    decreases text.len(),
{
    if text.len() == 0 {
        Seq::empty()
    } else if is_space(text[0]) {
        words(text.drop_first())
    } else {
        let len = word_len(text) as int;
        proof {
            lemma_word_len_bounds(text);
        }
        seq![text.take(len)] + words(text.skip(len))
    }
}

/// A word is no longer than its text, and not empty where the text starts
/// with something other than white space.
pub proof fn lemma_word_len_bounds(text: Seq<char>)
    ensures
        word_len(text) <= text.len(),
        text.len() > 0 && !is_space(text[0]) ==> word_len(text) >= 1,
    decreases text.len(),
{
    if text.len() > 0 && !is_space(text[0]) {
        lemma_word_len_bounds(text.drop_first());
    }
}

/// The lines of a text: what stands between its line breaks. A line break
/// at the very end starts no further line.
pub open spec fn lines(text: Seq<char>) -> Seq<Seq<char>>
    decreases text.len(),
{
    if text.len() == 0 {
        Seq::empty()
    } else {
        let len = line_len(text) as int;
        if len < text.len() {
            seq![text.take(len)] + lines(text.skip(len + 1))
        } else {
            seq![text]
        }
    }
}

/// The numbers among the words, in order.
pub open spec fn numbers(words: Seq<Seq<char>>) -> Seq<usize>
    decreases words.len(),
{
    if words.len() == 0 {
        Seq::empty()
    } else {
        match number(words[0]) {
            Some(n) => seq![n] + numbers(words.drop_first()),
            None => numbers(words.drop_first()),
        }
    }
}

/// The numbers that a text holds, in order.
pub open spec fn numbers_in(text: Seq<char>) -> Seq<usize> {
    numbers(words(text))
}

/// The first character of a text that is not white space.
pub open spec fn first_mark(text: Seq<char>) -> Option<char>
    decreases text.len(),
{
    if text.len() == 0 {
        None
    } else if is_space(text[0]) {
        first_mark(text.drop_first())
    } else {
        Some(text[0])
    }
}

/// The requirement that a line states: none where the line is a comment or
/// holds no number; else the first number is the length of the beam and the
/// others are the weld budgets.
pub open spec fn requirement_in(line: Seq<char>) -> Option<Requirement> {
    let found = numbers_in(line);
    if first_mark(line) == Some('#') || found.len() == 0 {
        None
    } else {
        Some(Requirement { size: found[0], welds: found.skip(1) })
    }
}

/// The requirements that the lines state, in order.
pub open spec fn requirements_of(lines: Seq<Seq<char>>) -> Seq<Requirement>
    decreases lines.len(),
{
    if lines.len() == 0 {
        Seq::empty()
    } else {
        match requirement_in(lines[0]) {
            Some(requirement) => seq![requirement] + requirements_of(lines.drop_first()),
            None => requirements_of(lines.drop_first()),
        }
    }
}

/// The requirements that a text states, in the order of its lines.
pub open spec fn requirements_in(text: Seq<char>) -> Seq<Requirement> {
    requirements_of(lines(text))
}

/// A word ends where the first white space stands, or with the text.
pub proof fn lemma_word_len(text: Seq<char>, len: int)
    requires
        0 <= len <= text.len(),
        forall|k: int| 0 <= k < len ==> !is_space(text[k]),
        len < text.len() ==> is_space(text[len]),
    ensures
        word_len(text) == len,
    decreases len,
{
    if len > 0 {
        lemma_word_len(text.drop_first(), len - 1);
    }
}

/// A line ends where the first line break stands, or with the text.
pub proof fn lemma_line_len(text: Seq<char>, len: int)
    requires
        0 <= len <= text.len(),
        forall|k: int| 0 <= k < len ==> text[k] != '\n',
        len < text.len() ==> text[len] == '\n',
    ensures
        line_len(text) == len,
    decreases len,
{
    if len > 0 {
        lemma_line_len(text.drop_first(), len - 1);
    }
}

/// Digits written after a number make it no smaller.
proof fn lemma_digits_value_grows(digits: Seq<char>, len: int)
    requires
        all_digits(digits),
        0 <= len <= digits.len(),
    ensures
        0 <= digits_value(digits.take(len)) <= digits_value(digits),
    decreases digits.len() - len,
{
    if len == 0 {
        assert(digits.take(0) =~= Seq::empty());
        lemma_digits_value_nonnegative(digits);
    } else if len < digits.len() {
        lemma_digits_value_grows(digits, len + 1);
        assert(digits.take(len + 1).drop_last() =~= digits.take(len));
        assert(is_digit(digits[len]));
        lemma_digits_value_nonnegative(digits.take(len));
    } else {
        assert(digits.take(len) =~= digits);
        lemma_digits_value_nonnegative(digits);
    }
}

/// A run of digits writes no negative number.
proof fn lemma_digits_value_nonnegative(digits: Seq<char>)
    requires
        all_digits(digits),
    ensures
        digits_value(digits) >= 0,
    decreases digits.len(),
{
    if digits.len() > 0 {
        assert(is_digit(digits[digits.len() - 1]));
        lemma_digits_value_nonnegative(digits.drop_last());
    }
}

/// Tells white space from other characters.
pub fn is_space_char(c: char) -> (space: bool)
    ensures
        space == is_space(c),
{
    let code = c as u32;
    (0x09 <= code && code <= 0x0D) || code == 0x20 || code == 0x85 || code == 0xA0 || code
        == 0x1680 || (0x2000 <= code && code <= 0x200A) || code == 0x2028 || code == 0x2029
        || code == 0x202F || code == 0x205F || code == 0x3000
}

/// The characters of a text, one by one.
fn chars_of(text: &str) -> (chars: Vec<char>)
    ensures
        chars@ == text@,
{
    broadcast use vstd::string::group_string_axioms;

    let mut chars: Vec<char> = Vec::new();
    let mut rest = text.chars();
    loop
        invariant
            chars@ + rest.remaining() == text@,
            rest.decrease() is Some,
        ensures
            chars@ == text@,
        decreases rest.decrease()->0,
    {
        let ghost ahead = rest.remaining();
        match rest.next() {
            Some(c) => {
                proof {
                    assert(chars@.push(c) + ahead.drop_first() =~= chars@ + ahead);
                }
                chars.push(c);
            },
            None => {
                proof {
                    assert(chars@ + ahead =~= chars@);
                }
                break;
            },
        }
    }
    chars
}

/// Reads the number that the word `text[start..end)` writes.
fn number_between(text: &Vec<char>, start: usize, end: usize) -> (value: Option<usize>)
    requires
        start <= end <= text@.len(),
    ensures
        value == number(text@.subrange(start as int, end as int)),
{
    let ghost word = text@.subrange(start as int, end as int);
    let first = if start < end && text[start] == '+' {
        start + 1
    } else {
        start
    };
    let ghost digits = text@.subrange(first as int, end as int);
    proof {
        assert(digits =~= unsigned(word));
    }
    if first == end {
        return None;
    }
    let mut sum: usize = 0;
    let mut at = first;
    while at < end
        invariant
            start <= first <= at <= end <= text@.len(),
            digits == text@.subrange(first as int, end as int),
            digits == unsigned(text@.subrange(start as int, end as int)),
            all_digits(digits.take(at - first)),
            sum == digits_value(digits.take(at - first)),
        decreases end - at,
    {
        let code = text[at] as u32;
        let ghost head = digits.take(at - first);
        let ghost next = digits.take(at - first + 1);
        proof {
            assert(next.drop_last() =~= head);
            assert(next.last() == text@[at as int]);
        }
        if code < 0x30 || code > 0x39 {
            proof {
                assert(!is_digit(digits[at - first]));
            }
            return None;
        }
        let digit = (code - 0x30) as usize;
        let longer = match sum.checked_mul(10) {
            Some(tens) => tens.checked_add(digit),
            None => None,
        };
        proof {
            assert forall|k: int| 0 <= k < next.len() implies is_digit(#[trigger] next[k]) by {
                if k < head.len() {
                    assert(next[k] == head[k]);
                }
            }
            if longer is None && all_digits(digits) {
                lemma_digits_value_grows(digits, at - first + 1);
            }
        }
        match longer {
            Some(value) => {
                sum = value;
            },
            None => {
                return None;
            },
        }
        at += 1;
    }
    proof {
        assert(digits.take(end - first) =~= digits);
    }
    Some(sum)
}

/// Collects the numbers that `text[start..end)` holds.
fn numbers_between(text: &Vec<char>, start: usize, end: usize) -> (found: Vec<usize>)
    requires
        start <= end <= text@.len(),
    ensures
        found@ == numbers_in(text@.subrange(start as int, end as int)),
{
    let mut found: Vec<usize> = Vec::new();
    let mut at = start;
    proof {
        let whole = numbers_in(text@.subrange(start as int, end as int));
        assert(found@ + whole =~= whole);
    }
    while at < end
        invariant
            start <= at <= end <= text@.len(),
            numbers_in(text@.subrange(start as int, end as int)) == found@ + numbers_in(
                text@.subrange(at as int, end as int),
            ),
        decreases end - at,
    {
        let ghost rest = text@.subrange(at as int, end as int);
        let ghost earlier = found@;
        if is_space_char(text[at]) {
            proof {
                assert(rest.drop_first() =~= text@.subrange(at + 1, end as int));
            }
            at += 1;
        } else {
            let mut stop = at + 1;
            while stop < end && !is_space_char(text[stop])
                invariant
                    at < stop <= end <= text@.len(),
                    forall|k: int| at <= k < stop ==> !is_space(text@[k]),
                decreases end - stop,
            {
                stop += 1;
            }
            let value = number_between(text, at, stop);
            proof {
                let len = stop - at;
                lemma_word_len(rest, len);
                let word = rest.take(len);
                let after = rest.skip(len);
                assert(word =~= text@.subrange(at as int, stop as int));
                assert(after =~= text@.subrange(stop as int, end as int));
                assert(words(rest) == seq![word] + words(after));
                assert((seq![word] + words(after)).drop_first() =~= words(after));
                match value {
                    Some(n) => {
                        assert(earlier + (seq![n] + numbers_in(after)) =~= earlier.push(n)
                            + numbers_in(after));
                    },
                    None => {},
                }
            }
            match value {
                Some(n) => {
                    found.push(n);
                },
                None => {},
            }
            at = stop;
        }
    }
    proof {
        assert(text@.subrange(at as int, end as int) =~= Seq::<char>::empty());
        assert(found@ + Seq::<usize>::empty() =~= found@);
    }
    found
}

/// Whether the first mark of `text[start..end)` is `#`.
fn is_comment_between(text: &Vec<char>, start: usize, end: usize) -> (comment: bool)
    requires
        start <= end <= text@.len(),
    ensures
        comment == (first_mark(text@.subrange(start as int, end as int)) == Some('#')),
{
    let mut at = start;
    while at < end && is_space_char(text[at])
        invariant
            start <= at <= end <= text@.len(),
            first_mark(text@.subrange(start as int, end as int)) == first_mark(
                text@.subrange(at as int, end as int),
            ),
        decreases end - at,
    {
        proof {
            let rest = text@.subrange(at as int, end as int);
            assert(rest.drop_first() =~= text@.subrange(at + 1, end as int));
        }
        at += 1;
    }
    proof {
        let rest = text@.subrange(at as int, end as int);
        if at < end {
            assert(rest[0] == text@[at as int]);
        }
    }
    at < end && text[at] == '#'
}

/// Reads the requirement that the line `text[start..end)` states.
fn requirement_between(text: &Vec<char>, start: usize, end: usize) -> (beam: Option<BeamRequires>)
    requires
        start <= end <= text@.len(),
    ensures
        match beam {
            Some(b) => requirement_in(text@.subrange(start as int, end as int)) == Some(b@),
            None => requirement_in(text@.subrange(start as int, end as int)) is None,
        },
{
    if is_comment_between(text, start, end) {
        return None;
    }
    let mut found = numbers_between(text, start, end);
    if found.len() == 0 {
        return None;
    }
    let ghost all = found@;
    let size = found.remove(0);
    proof {
        assert(all.remove(0) =~= all.skip(1));
    }
    Some(BeamRequires { size, welds: found })
}

/// Reads an offcuts text: every number in it is a piece. The pool comes
/// back longest first.
pub fn parse_offcuts(content: &str) -> (pool: Vec<usize>)
    ensures
        pool@ == longest_first(numbers_in(content@)),
{
    let text = chars_of(content);
    let mut pool = numbers_between(&text, 0, text.len());
    proof {
        assert(text@.subrange(0, text@.len() as int) =~= content@);
    }
    sort_descending(&mut pool);
    pool
}

/// Reads one line of a requirements text.
pub fn parse_requirement_line(line: &str) -> (beam: Option<BeamRequires>)
    ensures
        match beam {
            Some(b) => requirement_in(line@) == Some(b@),
            None => requirement_in(line@) is None,
        },
{
    let text = chars_of(line);
    proof {
        assert(text@.subrange(0, text@.len() as int) =~= line@);
    }
    requirement_between(&text, 0, text.len())
}

/// Reads a requirements text. The requirements come back longest beam
/// first; those for beams of one length stand in the order of their lines.
pub fn parse_beam_requirements(content: &str) -> (beams: Vec<BeamRequires>)
    ensures
        is_largest_first(views(beams@)),
        forall|size: usize|
            of_size(views(beams@), size) == of_size(requirements_in(content@), size),
{
    let text = chars_of(content);
    let mut beams: Vec<BeamRequires> = Vec::new();
    let mut at: usize = 0;
    proof {
        assert(text@.skip(0) =~= content@);
        assert(views(beams@) + requirements_in(content@) =~= requirements_in(content@));
    }
    while at < text.len()
        invariant
            at <= text@.len(),
            text@ == content@,
            requirements_in(content@) == views(beams@) + requirements_in(text@.skip(at as int)),
        decreases text@.len() - at,
    {
        let ghost rest = text@.skip(at as int);
        let ghost earlier = beams@;
        let mut stop = at;
        while stop < text.len() && text[stop] != '\n'
            invariant
                at <= stop <= text@.len(),
                forall|k: int| at <= k < stop ==> text@[k] != '\n',
            decreases text@.len() - stop,
        {
            stop += 1;
        }
        let beam = requirement_between(&text, at, stop);
        proof {
            let len = stop - at;
            lemma_line_len(rest, len);
            let line = text@.subrange(at as int, stop as int);
            assert(rest.take(len) =~= line);
            let after = if stop < text@.len() {
                lines(text@.skip(stop + 1))
            } else {
                Seq::empty()
            };
            if stop < text@.len() {
                assert(rest.skip(len + 1) =~= text@.skip(stop + 1));
                assert(lines(rest) == seq![line] + after);
            } else {
                assert(rest =~= line);
                assert(lines(rest) == seq![line]);
                assert(seq![line] + after =~= seq![line]);
                assert(text@.skip(text@.len() as int) =~= Seq::<char>::empty());
            }
            assert((seq![line] + after).drop_first() =~= after);
            if beam is Some {
                let stated = beam->0;
                assert(views(earlier.push(stated)) =~= views(earlier).push(stated@));
                assert(views(earlier) + (seq![stated@] + requirements_of(after)) =~= views(
                    earlier,
                ).push(stated@) + requirements_of(after));
            }
        }
        match beam {
            Some(b) => {
                beams.push(b);
            },
            None => {},
        }
        at = if stop < text.len() {
            stop + 1
        } else {
            stop
        };
    }
    proof {
        assert(text@.skip(at as int) =~= Seq::<char>::empty());
        assert(views(beams@) + Seq::<Requirement>::empty() =~= views(beams@));
    }
    sort_largest_first(&mut beams);
    beams
}

} // verus!
