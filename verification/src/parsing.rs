//! Reading an edge from a line of text: two unsigned numbers separated by
//! white space.

use vstd::prelude::*;

verus! {

/// `c` is white space, as Unicode defines it.
pub open spec fn is_space(c: char) -> bool {
    let x = c as u32;
    (0x09 <= x <= 0x0d) || x == 0x20 || x == 0x85 || x == 0xa0 || x == 0x1680 || (0x2000 <= x
        <= 0x200a) || x == 0x2028 || x == 0x2029 || x == 0x202f || x == 0x205f || x == 0x3000
}

/// The words of a line: its longest runs of characters that are not white
/// space, in order.
pub open spec fn words(line: Seq<char>) -> Seq<Seq<char>>
    decreases line.len(),
{
    if line.len() == 0 {
        Seq::empty()
    } else if is_space(line.last()) {
        words(line.drop_last())
    } else if line.len() >= 2 && !is_space(line[line.len() - 2]) && words(line.drop_last()).len()
        > 0 {
        words(line.drop_last()).drop_last().push(words(line.drop_last()).last().push(line.last()))
    } else {
        words(line.drop_last()).push(seq![line.last()])
    }
}

/// `c` is one of the digits `0` to `9`.
pub open spec fn is_digit(c: char) -> bool {
    0x30 <= c as u32 <= 0x39
}

/// The number that a sequence of digits denotes in base ten.
pub open spec fn decimal(digits: Seq<char>) -> nat
    decreases digits.len(),
{
    if digits.len() == 0 {
        0
    } else {
        decimal(digits.drop_last()) * 10 + (digits.last() as u32 - 0x30) as nat
    }
}

/// The digits of a word: the word without a leading `+`.
pub open spec fn unsigned(word: Seq<char>) -> Seq<char> {
    if word.len() > 0 && word[0] == '+' {
        word.drop_first()
    } else {
        word
    }
}

/// The number that a word denotes: one or more digits, after an optional
/// `+`, whose value fits `u32`.
pub open spec fn number(word: Seq<char>) -> Option<u32> {
    let digits = unsigned(word);
    if digits.len() > 0 && (forall|i: int| 0 <= i < digits.len() ==> is_digit(#[trigger] digits[i]))
        && decimal(digits) <= u32::MAX {
        Some(decimal(digits) as u32)
    } else {
        None
    }
}

/// The edge that a line denotes: the line holds exactly two words, and both
/// denote numbers.
pub open spec fn parsed(line: Seq<char>) -> Option<(u32, u32)> {
    let found = words(line);
    if found.len() == 2 && number(found[0]) is Some && number(found[1]) is Some {
        Some((number(found[0]).unwrap(), number(found[1]).unwrap()))
    } else {
        None
    }
}

/// A longer sequence of digits denotes no smaller a number.
pub proof fn lemma_decimal_grows(digits: Seq<char>, k: int)
    requires
        0 <= k <= digits.len(),
    ensures
        decimal(digits.take(k)) <= decimal(digits),
    decreases digits.len() - k,
{
    if k < digits.len() {
        lemma_decimal_grows(digits, k + 1);
        assert(digits.take(k + 1).drop_last() =~= digits.take(k));
    } else {
        assert(digits.take(k) =~= digits);
    }
}

/// Whether `c` is white space.
pub fn space(c: char) -> (b: bool)
    ensures
        b == is_space(c),
{
    let x: u32 = c as u32;
    (0x09 <= x && x <= 0x0d) || x == 0x20 || x == 0x85 || x == 0xa0 || x == 0x1680 || (0x2000 <= x
        && x <= 0x200a) || x == 0x2028 || x == 0x2029 || x == 0x202f || x == 0x205f || x == 0x3000
}

/// Splits a line into its words.
pub fn split_words(line: &str) -> (found: Vec<Vec<char>>)
    ensures
        found@.len() == words(line@).len(),
        forall|k: int| 0 <= k < found@.len() ==> (#[trigger] found@[k])@ == words(line@)[k],
{
    let mut found: Vec<Vec<char>> = Vec::new();
    let mut inside = false;
    for c in it: line.chars()
        invariant
            it.seq() == line@,
            inside == (it.index() > 0 && !is_space(line@[it.index() - 1])),
            inside ==> found@.len() > 0,
            found@.len() == words(line@.take(it.index() as int)).len(),
            forall|k: int|
                0 <= k < found@.len() ==> (#[trigger] found@[k])@ == words(
                    line@.take(it.index() as int),
                )[k],
    {
        proof {
            let i = it.index() as int;
            assert(line@.take(i + 1).drop_last() =~= line@.take(i));
            assert(line@.take(i + 1).last() == c);
            if i > 0 {
                assert(line@.take(i + 1)[i - 1] == line@[i - 1]);
            }
        }
        if space(c) {
            inside = false;
        } else if inside {
            let last = found.len() - 1;
            found[last].push(c);
        } else {
            let mut word: Vec<char> = Vec::new();
            word.push(c);
            found.push(word);
            inside = true;
        }
    }
    proof {
        assert(line@.take(line@.len() as int) =~= line@);
    }
    found
}

/// The number that a word denotes, if it denotes one.
pub fn parse_number(word: &Vec<char>) -> (value: Option<u32>)
    ensures
        value == number(word@),
{
    let start: usize = if word.len() > 0 && word[0] == '+' {
        1
    } else {
        0
    };
    let ghost digits = unsigned(word@);
    proof {
        assert(digits =~= word@.skip(start as int));
    }
    if start == word.len() {
        return None;
    }
    let mut total: u64 = 0;
    let mut i: usize = start;
    while i < word.len()
        invariant
            start <= i <= word.len(),
            digits == unsigned(word@),
            digits == word@.skip(start as int),
            forall|k: int| 0 <= k < i - start ==> is_digit(#[trigger] digits[k]),
            total == decimal(digits.take(i - start)),
            total <= u32::MAX,
        decreases word.len() - i,
    {
        let x: u32 = word[i] as u32;
        proof {
            assert(digits[i - start] == word@[i as int]);
            assert(digits.take(i - start + 1).drop_last() =~= digits.take(i - start));
        }
        if x < 0x30 || x > 0x39 {
            proof {
                assert(!is_digit(digits[i - start]));
            }
            return None;
        }
        total = total * 10 + (x - 0x30) as u64;
        if total > 0xffff_ffff {
            proof {
                lemma_decimal_grows(digits, i - start + 1);
            }
            return None;
        }
        i += 1;
    }
    proof {
        assert(digits.take(i - start) =~= digits);
    }
    Some(total as u32)
}

/// Reads an edge from a line: `Some` of the two numbers where the line holds
/// exactly two words and both are numbers, `None` for every other line.
pub fn parse_edge_line(line: &str) -> (edge: Option<(u32, u32)>)
    ensures
        edge == parsed(line@),
{
    let found = split_words(line);
    if found.len() != 2 {
        return None;
    }
    let first = parse_number(&found[0]);
    let second = parse_number(&found[1]);
    match (first, second) {
        (Some(a), Some(b)) => Some((a, b)),
        _ => None,
    }
}

} // verus!
