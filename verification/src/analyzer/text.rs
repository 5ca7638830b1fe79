//! Small helpers for building strings: joining, repeating, decimal
//! numbers, and replacing every occurrence of a pattern.
use vstd::prelude::*;
use vstd::string::{StrSliceExecFns, StringExecFns};

verus! {

/// `String::push`: appends `c` to the end of `text`.
#[verifier::external_body]
pub(crate) fn push(text: &mut String, c: char)
    ensures
        final(text)@ == old(text)@.push(c),
{
    text.push(c);
}

/// The two texts in a row, as one string.
pub(crate) fn join(first: &str, second: &str) -> (text: String)
    ensures
        text@ == first@ + second@,
{
    let mut text = first.to_owned();
    text.append(second);
    text
}

/// `count` times the character `c`.
pub open spec fn repeated(c: char, count: nat) -> Seq<char> {
    Seq::new(count, |i: int| c)
}

pub fn repeat(c: char, count: usize) -> (text: String)
    ensures
        text@ == repeated(c, count as nat),
{
    let mut text = String::new();
    let mut done: usize = 0;
    while done < count
        invariant
            done <= count,
            text@ == repeated(c, done as nat),
        decreases count - done,
    {
        push(&mut text, c);
        done += 1;
        assert(text@ =~= repeated(c, done as nat));
    }
    text
}

/// The character for a digit.
pub open spec fn digit(value: nat) -> char
    recommends
        value < 10,
{
    if value == 0 {
        '0'
    } else if value == 1 {
        '1'
    } else if value == 2 {
        '2'
    } else if value == 3 {
        '3'
    } else if value == 4 {
        '4'
    } else if value == 5 {
        '5'
    } else if value == 6 {
        '6'
    } else if value == 7 {
        '7'
    } else if value == 8 {
        '8'
    } else {
        '9'
    }
}

/// The number in decimal digits, without leading zeros.
pub open spec fn decimal(number: nat) -> Seq<char>
    decreases number,
{
    if number < 10 {
        seq![digit(number)]
    } else {
        decimal(number / 10).push(digit(number % 10))
    }
}

fn digit_of(value: u8) -> (c: char)
    requires
        value < 10,
    ensures
        c == digit(value as nat),
{
    match value {
        0 => '0',
        1 => '1',
        2 => '2',
        3 => '3',
        4 => '4',
        5 => '5',
        6 => '6',
        7 => '7',
        8 => '8',
        _ => '9',
    }
}

pub fn to_decimal(number: u128) -> (text: String)
    ensures
        text@ == decimal(number as nat),
    decreases number,
{
    if number < 10 {
        let mut text = String::new();
        push(&mut text, digit_of(number as u8));
        assert(text@ =~= seq![digit(number as nat)]);
        text
    } else {
        let mut text = to_decimal(number / 10);
        push(&mut text, digit_of((number % 10) as u8));
        text
    }
}

/// `text` with every occurrence of `pattern` replaced by `with`.  The
/// occurrences are looked for from the left and do not overlap; what was
/// put in is not looked through again.
pub open spec fn replaced(text: Seq<char>, pattern: Seq<char>, with: Seq<char>) -> Seq<char>
    recommends
        pattern.len() > 0,
    decreases text.len(),
{
    if pattern.len() == 0 || text.len() < pattern.len() {
        text
    } else if text.take(pattern.len() as int) == pattern {
        with + replaced(text.skip(pattern.len() as int), pattern, with)
    } else {
        seq![text[0]] + replaced(text.skip(1), pattern, with)
    }
}

/// The characters of `text`, one by one.
fn characters(text: &str) -> (chars: Vec<char>)
    ensures
        chars@ == text@,
{
    let len = text.unicode_len();
    let mut chars: Vec<char> = Vec::new();
    let mut index: usize = 0;
    while index < len
        invariant
            len == text@.len(),
            index <= len,
            chars@ == text@.take(index as int),
        decreases len - index,
    {
        chars.push(text.get_char(index));
        index += 1;
        assert(chars@ =~= text@.take(index as int));
    }
    assert(text@.take(len as int) =~= text@);
    chars
}

/// `pattern` stands at the front of what is left of `text` from `at` on.
fn starts_with(text: &Vec<char>, at: usize, pattern: &Vec<char>) -> (found: bool)
    requires
        at <= text@.len(),
    ensures
        found == (pattern@.len() <= text@.len() - at && text@.skip(at as int).take(
            pattern@.len() as int,
        ) == pattern@),
{
    if pattern.len() > text.len() - at {
        return false;
    }
    let ghost rest = text@.skip(at as int);
    let total = text.len();
    let mut index: usize = 0;
    while index < pattern.len()
        invariant
            total == text@.len(),
            at + pattern@.len() <= text@.len(),
            rest == text@.skip(at as int),
            index <= pattern@.len(),
            rest.take(index as int) == pattern@.take(index as int),
        decreases pattern@.len() - index,
    {
        if text[at + index] != pattern[index] {
            assert(rest.take(pattern@.len() as int)[index as int] != pattern@[index as int]);
            return false;
        }
        index += 1;
        assert(rest.take(index as int) =~= rest.take(index - 1).push(rest[index - 1]));
        assert(pattern@.take(index as int) =~= pattern@.take(index - 1).push(pattern@[index - 1]));
    }
    assert(pattern@.take(pattern@.len() as int) =~= pattern@);
    true
}

pub fn replace(text: &str, pattern: &str, with: &str) -> (out: String)
    requires
        pattern@.len() > 0,
    ensures
        out@ == replaced(text@, pattern@, with@),
{
    let chars = characters(text);
    let wanted = characters(pattern);
    let mut out = String::new();
    let mut at: usize = 0;
    assert(chars@.skip(0) =~= chars@);
    assert(out@ + replaced(chars@, wanted@, with@) =~= replaced(chars@, wanted@, with@));
    while at < chars.len()
        invariant
            at <= chars@.len(),
            wanted@.len() > 0,
            chars@ == text@,
            wanted@ == pattern@,
            replaced(text@, pattern@, with@) == out@ + replaced(
                chars@.skip(at as int),
                wanted@,
                with@,
            ),
        decreases chars@.len() - at,
    {
        let ghost rest = chars@.skip(at as int);
        let ghost before = out@;
        if starts_with(&chars, at, &wanted) {
            out.append(with);
            at += wanted.len();
            assert(rest.skip(wanted@.len() as int) =~= chars@.skip(at as int));
            assert(before + (with@ + replaced(chars@.skip(at as int), wanted@, with@)) =~= out@
                + replaced(chars@.skip(at as int), wanted@, with@));
        } else {
            push(&mut out, chars[at]);
            at += 1;
            assert(rest.skip(1) =~= chars@.skip(at as int));
            assert(before + (seq![rest[0]] + replaced(chars@.skip(at as int), wanted@, with@))
                =~= out@ + replaced(chars@.skip(at as int), wanted@, with@));
        }
    }
    assert(out@ + replaced(chars@.skip(at as int), wanted@, with@) =~= out@);
    out
}

} // verus!
