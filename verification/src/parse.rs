//! The text that describes a park: numbers in lines, lines in blocks.

use crate::config::{rows_view, Sets};
use vstd::prelude::*;
use vstd::slice::{slice_subrange, slice_to_vec};

verus! {

/// White space: the code points that Unicode gives the property `White_Space`.
pub open spec fn is_space(c: char) -> bool {
    let u = c as u32;
    ||| 0x09 <= u <= 0x0D
    ||| u == 0x20
    ||| u == 0x85
    ||| u == 0xA0
    ||| u == 0x1680
    ||| 0x2000 <= u <= 0x200A
    ||| u == 0x2028
    ||| u == 0x2029
    ||| u == 0x202F
    ||| u == 0x205F
    ||| u == 0x3000
}

/// The ten ASCII digits.
pub open spec fn is_digit(c: char) -> bool {
    0x30 <= c as u32 <= 0x39
}

/// The value of a digit.
pub open spec fn digit(c: char) -> nat {
    (c as u32 - 0x30) as nat
}

/// The number that a row of digits writes in base ten.
pub open spec fn decimal(digits: Seq<char>) -> nat
    decreases digits.len(),
{
    if digits.len() == 0 {
        0
    } else {
        decimal(digits.drop_last()) * 10 + digit(digits.last())
    }
}

/// A token without the `+` that may lead it.
pub open spec fn unsigned(token: Seq<char>) -> Seq<char> {
    if token.len() > 0 && token[0] == '+' {
        token.skip(1)
    } else {
        token
    }
}

/// Whether every character is a digit.
pub open spec fn all_digits(digits: Seq<char>) -> bool {
    forall|i: int| 0 <= i < digits.len() ==> is_digit(#[trigger] digits[i])
}

/// The number that a token writes: an optional `+`, then one digit or more,
/// with a value that a `usize` holds. Any other token writes none.
pub open spec fn number(token: Seq<char>) -> Option<usize> {
    let digits = unsigned(token);
    if digits.len() > 0 && all_digits(digits) && decimal(digits) <= usize::MAX {
        Some(decimal(digits) as usize)
    } else {
        None
    }
}

/// The first index from `from` on at which `line` holds white space, or
/// the length of `line` where it holds none.
pub open spec fn token_end(line: Seq<char>, from: int) -> int
    decreases line.len() - from,
{
    if 0 <= from < line.len() && !is_space(line[from]) {
        token_end(line, from + 1)
    } else {
        from
    }
}

/// The tokens of `line` that begin at `from` or after it. A token is a run
/// of characters other than white space that no such character borders.
pub open spec fn tokens_from(line: Seq<char>, from: int) -> Seq<Seq<char>>
    decreases line.len() - from,
{
    if from < 0 || from >= line.len() {
        Seq::empty()
    } else if is_space(line[from]) {
        tokens_from(line, from + 1)
    } else {
        let end = token_end(line, from + 1);
        proof {
            lemma_token_end_bounds(line, from + 1);
        }
        seq![line.subrange(from, end)] + tokens_from(line, end)
    }
}

/// The tokens of a line, in order.
pub open spec fn tokens(line: Seq<char>) -> Seq<Seq<char>> {
    tokens_from(line, 0)
}

/// The numbers that a line writes, or none where one of its tokens writes
/// no number.
pub open spec fn numbers(line: Seq<char>) -> Option<Seq<usize>> {
    let words = tokens(line);
    if forall|i: int| 0 <= i < words.len() ==> number(#[trigger] words[i]) is Some {
        Some(Seq::new(words.len(), |i: int| number(words[i])->0))
    } else {
        None
    }
}

/// The first index from `from` on at which `text` holds a line feed, or the
/// length of `text` where it holds none.
pub open spec fn line_end(text: Seq<char>, from: int) -> int
    decreases text.len() - from,
{
    if 0 <= from < text.len() && text[from] != '\n' {
        line_end(text, from + 1)
    } else {
        from
    }
}

/// The lines of `text` that begin at `from` or after it. A line feed ends a
/// line; what follows the last line feed is a line unless it is empty.
pub open spec fn lines_from(text: Seq<char>, from: int) -> Seq<Seq<char>>
    decreases text.len() - from,
{
    if from < 0 || from >= text.len() {
        Seq::empty()
    } else {
        let end = line_end(text, from);
        proof {
            lemma_line_end_bounds(text, from);
        }
        if end < text.len() {
            seq![text.subrange(from, end)] + lines_from(text, end + 1)
        } else {
            seq![text.subrange(from, end)]
        }
    }
}

/// The lines of a text, in order.
pub open spec fn lines(text: Seq<char>) -> Seq<Seq<char>> {
    lines_from(text, 0)
}

/// The rows of numbers that the lines of a text write, or none where some
/// line holds a token that writes no number.
pub open spec fn rows(text: Seq<char>) -> Option<Seq<Seq<usize>>> {
    let all = lines(text);
    if forall|i: int| 0 <= i < all.len() ==> numbers(#[trigger] all[i]) is Some {
        Some(Seq::new(all.len(), |i: int| numbers(all[i])->0))
    } else {
        None
    }
}

/// The first index from `from` on at which `rows` holds an empty row, or the
/// length of `rows` where it holds none.
pub open spec fn block_end(rows: Seq<Seq<usize>>, from: int) -> int
    decreases rows.len() - from,
{
    if 0 <= from < rows.len() && rows[from].len() != 0 {
        block_end(rows, from + 1)
    } else {
        from
    }
}

/// The blocks of `rows` that begin at `from` or after it. An empty row ends
/// a block; what follows the last empty row is a block unless it is empty.
pub open spec fn blocks_from(rows: Seq<Seq<usize>>, from: int) -> Seq<Seq<Seq<usize>>>
    decreases rows.len() - from,
{
    if from < 0 || from >= rows.len() {
        Seq::empty()
    } else {
        let end = block_end(rows, from);
        proof {
            lemma_block_end_bounds(rows, from);
        }
        if end < rows.len() {
            seq![rows.subrange(from, end)] + blocks_from(rows, end + 1)
        } else {
            seq![rows.subrange(from, end)]
        }
    }
}

/// The blocks of a sequence of rows, in order.
pub open spec fn blocks(rows: Seq<Seq<usize>>) -> Seq<Seq<Seq<usize>>> {
    blocks_from(rows, 0)
}

/// The blocks of rows of numbers that a text describes, or none where the
/// text holds a token that writes no number.
pub open spec fn described(text: Seq<char>) -> Option<Seq<Seq<Seq<usize>>>> {
    match rows(text) {
        Some(all) => Some(blocks(all)),
        None => None,
    }
}

pub proof fn lemma_token_end_bounds(line: Seq<char>, from: int)
    requires
        0 <= from <= line.len(),
    ensures
        from <= token_end(line, from) <= line.len(),
        forall|i: int| from <= i < token_end(line, from) ==> !is_space(line[i]),
        token_end(line, from) < line.len() ==> is_space(line[token_end(line, from)]),
    decreases line.len() - from,
{
    if from < line.len() && !is_space(line[from]) {
        lemma_token_end_bounds(line, from + 1);
    }
}

pub proof fn lemma_line_end_bounds(text: Seq<char>, from: int)
    requires
        0 <= from <= text.len(),
    ensures
        from <= line_end(text, from) <= text.len(),
        forall|i: int| from <= i < line_end(text, from) ==> text[i] != '\n',
        line_end(text, from) < text.len() ==> text[line_end(text, from)] == '\n',
    decreases text.len() - from,
{
    if from < text.len() && text[from] != '\n' {
        lemma_line_end_bounds(text, from + 1);
    }
}

pub proof fn lemma_block_end_bounds(rows: Seq<Seq<usize>>, from: int)
    requires
        0 <= from <= rows.len(),
    ensures
        from <= block_end(rows, from) <= rows.len(),
        forall|i: int| from <= i < block_end(rows, from) ==> rows[i].len() != 0,
        block_end(rows, from) < rows.len() ==> rows[block_end(rows, from)].len() == 0,
    decreases rows.len() - from,
{
    if from < rows.len() && rows[from].len() != 0 {
        lemma_block_end_bounds(rows, from + 1);
    }
}

/// A row of digits writes no less than any row it begins with.
proof fn lemma_decimal_grows(digits: Seq<char>, len: int)
    requires
        0 <= len <= digits.len(),
    ensures
        decimal(digits.take(len)) <= decimal(digits),
    decreases digits.len() - len,
{
    if len == digits.len() {
        assert(digits.take(len) =~= digits);
    } else {
        lemma_decimal_grows(digits.drop_last(), len);
        assert(digits.drop_last().take(len) =~= digits.take(len));
    }
}

/// Tells white space from other characters.
pub fn space(c: char) -> (b: bool)
    ensures
        b == is_space(c),
{
    let u: u32 = c as u32;
    (0x09 <= u && u <= 0x0D) || u == 0x20 || u == 0x85 || u == 0xA0 || u == 0x1680 || (0x2000 <= u
        && u <= 0x200A) || u == 0x2028 || u == 0x2029 || u == 0x202F || u == 0x205F || u == 0x3000
}

/// Reads the number that `token` writes.
pub fn parse_number(token: &[char]) -> (value: Option<usize>)
    ensures
        value == number(token@),
{
    let first: usize = if token.len() > 0 && token[0] == '+' {
        1
    } else {
        0
    };
    let ghost digits = token@.skip(first as int);
    if first == token.len() {
        return None;
    }
    let mut value: usize = 0;
    let mut i: usize = first;
    while i < token.len()
        invariant
            first <= i <= token.len(),
            digits == token@.skip(first as int),
            digits == unsigned(token@),
            forall|j: int| 0 <= j < i - first ==> is_digit(digits[j]),
            value == decimal(digits.take(i - first)),
        decreases token.len() - i,
    {
        let c: char = token[i];
        let u: u32 = c as u32;
        if u < 0x30 || u > 0x39 {
            assert(!is_digit(digits[i - first]));
            return None;
        }
        let d: usize = (u - 0x30) as usize;
        proof {
            assert(digits.take(i + 1 - first).drop_last() =~= digits.take(i - first));
            lemma_decimal_grows(digits, i + 1 - first);
        }
        if value > (usize::MAX - d) / 10 {
            return None;
        }
        value = value * 10 + d;
        i = i + 1;
    }
    assert(digits.take(token.len() - first) =~= digits);
    Some(value)
}

/// Reads the numbers that `line` writes.
pub fn parse_line(line: &[char]) -> (row: Option<Vec<usize>>)
    ensures
        row is Some <==> numbers(line@) is Some,
        row is Some ==> row->0@ == numbers(line@)->0,
{
    let mut row: Vec<usize> = Vec::new();
    let ghost mut done: Seq<Seq<char>> = Seq::empty();
    let mut from: usize = 0;
    while from < line.len()
        invariant
            from <= line.len(),
            tokens(line@) == done + tokens_from(line@, from as int),
            row.len() == done.len(),
            forall|i: int| 0 <= i < done.len() ==> number(#[trigger] done[i]) == Some(row[i]),
        decreases line.len() - from,
    {
        if space(line[from]) {
            from = from + 1;
        } else {
            let mut end: usize = from + 1;
            while end < line.len() && !space(line[end])
                invariant
                    from < end <= line.len(),
                    token_end(line@, from + 1) == token_end(line@, end as int),
                decreases line.len() - end,
            {
                end = end + 1;
            }
            let token = slice_subrange(line, from, end);
            assert(tokens(line@)[done.len() as int] == token@);
            match parse_number(token) {
                None => {
                    return None;
                },
                Some(value) => {
                    row.push(value);
                    proof {
                        let grown = done.push(token@);
                        done = grown;
                    }
                },
            }
            from = end;
        }
    }
    Some(row)
}

/// Reads the rows of numbers that the lines of `text` write.
pub fn parse_rows(text: &[char]) -> (all: Option<Vec<Vec<usize>>>)
    ensures
        all is Some <==> rows(text@) is Some,
        all is Some ==> rows_view(all->0) == rows(text@)->0,
{
    let mut all: Vec<Vec<usize>> = Vec::new();
    let ghost mut done: Seq<Seq<char>> = Seq::empty();
    let mut from: usize = 0;
    while from < text.len()
        invariant
            from <= text.len(),
            lines(text@) == done + lines_from(text@, from as int),
            all.len() == done.len(),
            forall|i: int|
                0 <= i < done.len() ==> numbers(#[trigger] done[i]) == Some(all[i]@),
        decreases text.len() - from,
    {
        let mut end: usize = from;
        while end < text.len() && text[end] != '\n'
            invariant
                from <= end <= text.len(),
                line_end(text@, from as int) == line_end(text@, end as int),
            decreases text.len() - end,
        {
            end = end + 1;
        }
        let line = slice_subrange(text, from, end);
        assert(lines(text@)[done.len() as int] == line@);
        match parse_line(line) {
            None => {
                return None;
            },
            Some(row) => {
                all.push(row);
                proof {
                    let grown = done.push(line@);
                    done = grown;
                }
            },
        }
        if end < text.len() {
            from = end + 1;
        } else {
            from = end;
        }
    }
    Some(all)
}

/// Gathers rows into blocks: an empty row ends a block.
pub fn group(rows: &Vec<Vec<usize>>) -> (sets: Sets)
    ensures
        sets@ == blocks(rows_view(*rows)),
{
    let ghost all = rows_view(*rows);
    let mut sets: Vec<Vec<Vec<usize>>> = Vec::new();
    let mut from: usize = 0;
    while from < rows.len()
        invariant
            from <= rows.len(),
            all == rows_view(*rows),
            blocks(all) == (Sets(sets))@ + blocks_from(all, from as int),
        decreases rows.len() - from,
    {
        let mut block: Vec<Vec<usize>> = Vec::new();
        let mut end: usize = from;
        while end < rows.len() && rows[end].len() != 0
            invariant
                from <= end <= rows.len(),
                all == rows_view(*rows),
                block_end(all, from as int) == block_end(all, end as int),
                rows_view(block) == all.subrange(from as int, end as int),
            decreases rows.len() - end,
        {
            let ghost before = rows_view(block);
            block.push(slice_to_vec(rows[end].as_slice()));
            assert(rows_view(block) =~= before.push(rows[end as int]@));
            end = end + 1;
        }
        sets.push(block);
        if end < rows.len() {
            from = end + 1;
        } else {
            from = end;
        }
    }
    Sets(sets)
}

/// The characters of `text`, one by one.
fn chars_of(text: &str) -> (chars: Vec<char>)
    ensures
        chars@ == text@,
{
    let mut chars: Vec<char> = Vec::new();
    for c in it: text.chars()
        invariant
            it.seq() == text@,
            chars@ == it.seq().take(it.index()),
    {
        chars.push(c);
    }
    chars
}

/// Reads the description of a park.
///
/// The text is cut into lines at each line feed, each line into tokens at
/// white space, and every token has to write a number. A line without a
/// token ends a block of rows. The result is none exactly where some token
/// writes no number.
pub fn parse_config(text: &str) -> (sets: Option<Sets>)
    ensures
        sets is Some <==> described(text@) is Some,
        sets is Some ==> sets->0@ == described(text@)->0,
{
    let chars = chars_of(text);
    match parse_rows(chars.as_slice()) {
        None => None,
        Some(all) => Some(group(&all)),
    }
}

} // verus!
