//! The tokenizer of a second, two-dimensional language: a program is a grid
//! of cells, one row a line, the cells of a row divided by whitespace. A
//! cell is empty (`.`), an integer, or an operator of one character.

use crate::chars::{chars_of, code_point, string_of};
use crate::error::Error;
use crate::integer::{decimal, Integer};
use vstd::prelude::*;

verus! {

/// One of the four directions on the grid.
#[derive(Debug, PartialEq, Eq, Clone, Copy, Structural)]
pub enum Direction {
    Up,
    Down,
    Left,
    Right,
}

/// An operator of the grid language.
#[derive(Debug, PartialEq, Eq, Clone, Copy, Structural)]
pub enum Operator {
    /// `<`, `>`, `^`, `v`: moves a value on.
    Redirect(Direction),
    /// `+`
    Add,
    /// `-`
    Sub,
    /// `*`
    Mul,
    /// `/`
    Div,
    /// `%`
    Mod,
    /// `@`
    Warp,
    /// `=`
    Eq,
    /// `#`
    Neq,
    /// `S`
    Submit,
    /// `A`
    Alpha,
    /// `B`
    Beta,
}

/// A cell of the grid.
#[derive(Debug, PartialEq, Eq, Clone, Copy, Structural)]
pub enum Token {
    /// `.`
    Empty,
    /// A number in decimal.
    Integer(isize),
    /// An operator.
    Operator(Operator),
}

/// The character that an operator is written as.
pub open spec fn operator_char(operator: Operator) -> char {
    match operator {
        Operator::Redirect(Direction::Up) => '^',
        Operator::Redirect(Direction::Down) => 'v',
        Operator::Redirect(Direction::Left) => '<',
        Operator::Redirect(Direction::Right) => '>',
        Operator::Add => '+',
        Operator::Sub => '-',
        Operator::Mul => '*',
        Operator::Div => '/',
        Operator::Mod => '%',
        Operator::Warp => '@',
        Operator::Eq => '=',
        Operator::Neq => '#',
        Operator::Submit => 'S',
        Operator::Alpha => 'A',
        Operator::Beta => 'B',
    }
}

/// The operator that a character stands for, if it stands for one.
pub open spec fn char_operator(c: char) -> Option<Operator> {
    if c == '^' {
        Some(Operator::Redirect(Direction::Up))
    } else if c == 'v' {
        Some(Operator::Redirect(Direction::Down))
    } else if c == '<' {
        Some(Operator::Redirect(Direction::Left))
    } else if c == '>' {
        Some(Operator::Redirect(Direction::Right))
    } else if c == '+' {
        Some(Operator::Add)
    } else if c == '-' {
        Some(Operator::Sub)
    } else if c == '*' {
        Some(Operator::Mul)
    } else if c == '/' {
        Some(Operator::Div)
    } else if c == '%' {
        Some(Operator::Mod)
    } else if c == '@' {
        Some(Operator::Warp)
    } else if c == '=' {
        Some(Operator::Eq)
    } else if c == '#' {
        Some(Operator::Neq)
    } else if c == 'S' {
        Some(Operator::Submit)
    } else if c == 'A' {
        Some(Operator::Alpha)
    } else if c == 'B' {
        Some(Operator::Beta)
    } else {
        None
    }
}

/// The text that a cell is written as.
pub open spec fn token_text(token: Token) -> Seq<char> {
    match token {
        Token::Empty => seq!['.'],
        Token::Integer(value) => decimal(value as int),
        Token::Operator(operator) => seq![operator_char(operator)],
    }
}

/// Writing an operator and reading the character gives the operator back.
pub proof fn lemma_operator_round_trip(operator: Operator)
    ensures
        char_operator(operator_char(operator)) == Some(operator),
{
}

impl Operator {
    /// The character that the operator is written as, as a string.
    pub fn to_string(&self) -> (r: String)
        ensures
            r@ == seq![operator_char(*self)],
    {
        let c = match self {
            Operator::Redirect(Direction::Up) => '^',
            Operator::Redirect(Direction::Down) => 'v',
            Operator::Redirect(Direction::Left) => '<',
            Operator::Redirect(Direction::Right) => '>',
            Operator::Add => '+',
            Operator::Sub => '-',
            Operator::Mul => '*',
            Operator::Div => '/',
            Operator::Mod => '%',
            Operator::Warp => '@',
            Operator::Eq => '=',
            Operator::Neq => '#',
            Operator::Submit => 'S',
            Operator::Alpha => 'A',
            Operator::Beta => 'B',
        };
        let mut r = String::new();
        r.push(c);
        proof {
            assert(r@ =~= seq![c]);
        }
        r
    }
}

impl Token {
    /// The text that the cell is written as.
    pub fn to_string(&self) -> (r: String)
        ensures
            r@ == token_text(*self),
    {
        match self {
            Token::Empty => {
                let mut r = String::new();
                r.push('.');
                proof {
                    assert(r@ =~= seq!['.']);
                }
                r
            },
            Token::Integer(value) => Integer::from_i64(*value as i64).to_decimal(),
            Token::Operator(operator) => operator.to_string(),
        }
    }
}

/// Whether `c` is whitespace: a character with the Unicode property
/// `White_Space`.
pub open spec fn is_whitespace(c: char) -> bool {
    let code = c as int;
    ||| 9 <= code <= 13
    ||| code == 32
    ||| code == 133
    ||| code == 160
    ||| code == 5760
    ||| 8192 <= code <= 8202
    ||| code == 8232
    ||| code == 8233
    ||| code == 8239
    ||| code == 8287
    ||| code == 12288
}

/// Whether `c` is a decimal digit.
pub open spec fn is_digit(c: char) -> bool {
    48 <= c as int <= 57
}

/// Whether `s` is a numeral: one decimal digit or more.
pub open spec fn is_numeral(s: Seq<char>) -> bool {
    s.len() > 0 && forall|i: int| 0 <= i < s.len() ==> is_digit(#[trigger] s[i])
}

/// The number that the decimal digits `s` denote.
pub open spec fn decimal_value(s: Seq<char>) -> nat
    decreases s.len(),
{
    if s.len() == 0 {
        0
    } else {
        (decimal_value(s.drop_last()) * 10 + (s.last() as int - 48)) as nat
    }
}

/// The integer that a word denotes: a numeral, with `+` or `-` before it or
/// without, whose number is one of an `isize`.
pub open spec fn word_integer(word: Seq<char>) -> Option<int> {
    let signed = word.len() > 0 && (word[0] == '-' || word[0] == '+');
    let digits = if signed {
        word.drop_first()
    } else {
        word
    };
    let value = if word.len() > 0 && word[0] == '-' {
        -(decimal_value(digits) as int)
    } else {
        decimal_value(digits) as int
    };
    if is_numeral(digits) && isize::MIN <= value <= isize::MAX {
        Some(value)
    } else {
        None
    }
}

/// The cell that a word stands for: `.` is the empty cell, an integer is a
/// number, one character of an operator is that operator. Any other word is
/// `Error::Tokenize`.
pub open spec fn token_of_word(word: Seq<char>) -> Result<Token, Error> {
    if word == seq!['.'] {
        Ok(Token::Empty)
    } else if word_integer(word) is Some {
        Ok(Token::Integer(word_integer(word)->Some_0 as isize))
    } else if word.len() == 1 && char_operator(word[0]) is Some {
        Ok(Token::Operator(char_operator(word[0])->Some_0))
    } else {
        Err(Error::Tokenize)
    }
}

/// The end of the word that starts at `start`: the index of the first
/// whitespace at or after `start`, or the length of `s`.
pub open spec fn word_end(s: Seq<char>, start: int) -> int
    decreases s.len() - start,
{
    if start < 0 || start >= s.len() || is_whitespace(s[start]) {
        start
    } else {
        word_end(s, start + 1)
    }
}

/// The end of the line that starts at `start`: the index of the first line
/// feed at or after `start`, or the length of `s`.
pub open spec fn line_end(s: Seq<char>, start: int) -> int
    decreases s.len() - start,
{
    if start < 0 || start >= s.len() || s[start] == '\n' {
        start
    } else {
        line_end(s, start + 1)
    }
}

/// `row` and then the rows of `rest`, or the error of `rest`.
pub open spec fn row_then<T>(row: Seq<T>, rest: Result<Seq<T>, Error>) -> Result<Seq<T>, Error> {
    match rest {
        Ok(more) => Ok(row + more),
        Err(e) => Err(e),
    }
}

/// The cells of the words of `s` from `pos` on, or `Error::Tokenize` where
/// a word stands for no cell.
pub open spec fn cells_from(s: Seq<char>, pos: int) -> Result<Seq<Token>, Error>
    decreases s.len() - pos,
    via cells_from_decreases
{
    if pos < 0 || pos >= s.len() {
        Ok(Seq::empty())
    } else if is_whitespace(s[pos]) {
        cells_from(s, pos + 1)
    } else {
        match token_of_word(s.subrange(pos, word_end(s, pos))) {
            Ok(token) => row_then(seq![token], cells_from(s, word_end(s, pos))),
            Err(e) => Err(e),
        }
    }
}

#[via_fn]
proof fn cells_from_decreases(s: Seq<char>, pos: int) {
    if 0 <= pos < s.len() {
        lemma_word_end(s, pos);
    }
}

/// The rows of the lines of `s` from `pos` on, a row for each line, or the
/// error of the first line that has one.
pub open spec fn rows_from(s: Seq<char>, pos: int) -> Result<Seq<Seq<Token>>, Error>
    decreases s.len() - pos,
    via rows_from_decreases
{
    if pos < 0 || pos > s.len() {
        Ok(Seq::empty())
    } else {
        match cells_from(s.subrange(pos, line_end(s, pos)), 0) {
            Ok(row) => if line_end(s, pos) >= s.len() {
                Ok(seq![row])
            } else {
                row_then(seq![row], rows_from(s, line_end(s, pos) + 1))
            },
            Err(e) => Err(e),
        }
    }
}

#[via_fn]
proof fn rows_from_decreases(s: Seq<char>, pos: int) {
    if 0 <= pos <= s.len() {
        lemma_line_end(s, pos);
    }
}

/// How many rows at the front have no cell.
pub open spec fn empty_rows_before(rows: Seq<Seq<Token>>) -> int
    decreases rows.len(),
{
    if rows.len() == 0 || rows[0].len() > 0 {
        0
    } else {
        1 + empty_rows_before(rows.drop_first())
    }
}

/// Where the rows end without the rows at the back that have no cell.
pub open spec fn filled_rows_end(rows: Seq<Seq<Token>>) -> int
    decreases rows.len(),
{
    if rows.len() == 0 || rows.last().len() > 0 {
        rows.len() as int
    } else {
        filled_rows_end(rows.drop_last())
    }
}

/// The rows without those at the front and at the back that have no cell.
pub open spec fn trimmed(rows: Seq<Seq<Token>>) -> Seq<Seq<Token>> {
    let from = empty_rows_before(rows);
    let to = filled_rows_end(rows);
    if 0 <= from < to <= rows.len() {
        rows.subrange(from, to)
    } else {
        Seq::empty()
    }
}

/// The grid that a text stands for: a row for each line, without the lines
/// before the first and after the last one that holds a cell.
pub open spec fn grid_of(text: Seq<char>) -> Result<Seq<Seq<Token>>, Error> {
    match rows_from(text, 0) {
        Ok(rows) => Ok(trimmed(rows)),
        Err(e) => Err(e),
    }
}

/// What a grid of cells stands for.
pub open spec fn grid_view(grid: Seq<Vec<Token>>) -> Seq<Seq<Token>> {
    grid.map_values(|row: Vec<Token>| row@)
}

/// What the outcome of reading a row stands for.
pub open spec fn row_outcome(r: Result<Vec<Token>, Error>) -> Result<Seq<Token>, Error> {
    match r {
        Ok(row) => Ok(row@),
        Err(e) => Err(e),
    }
}

/// What the outcome of reading a grid stands for.
pub open spec fn grid_outcome(r: Result<Vec<Vec<Token>>, Error>) -> Result<
    Seq<Seq<Token>>,
    Error,
> {
    match r {
        Ok(grid) => Ok(grid_view(grid@)),
        Err(e) => Err(e),
    }
}

/// A word ends within the text, holds no whitespace, and stops at
/// whitespace or at the end of the text.
pub proof fn lemma_word_end(s: Seq<char>, start: int)
    requires
        0 <= start <= s.len(),
    ensures
        start <= word_end(s, start) <= s.len(),
        start < s.len() && !is_whitespace(s[start]) ==> word_end(s, start) > start,
    decreases s.len() - start,
{
    if start < s.len() && !is_whitespace(s[start]) {
        lemma_word_end(s, start + 1);
    }
}

/// A line ends within the text.
pub proof fn lemma_line_end(s: Seq<char>, start: int)
    requires
        0 <= start <= s.len(),
    ensures
        start <= line_end(s, start) <= s.len(),
    decreases s.len() - start,
{
    if start < s.len() && s[start] != '\n' {
        lemma_line_end(s, start + 1);
    }
}

/// Whether `c` is whitespace.
pub fn whitespace(c: char) -> (r: bool)
    ensures
        r == is_whitespace(c),
{
    let code = code_point(c);
    (9 <= code && code <= 13) || code == 32 || code == 133 || code == 160 || code == 5760 || (8192
        <= code && code <= 8202) || code == 8232 || code == 8233 || code == 8239 || code == 8287
        || code == 12288
}

/// A numeral grows by one digit.
proof fn lemma_decimal_value_push(s: Seq<char>, i: int)
    requires
        0 <= i < s.len(),
        is_digit(s[i]),
    ensures
        decimal_value(s.take(i + 1)) == decimal_value(s.take(i)) * 10 + (s[i] as int - 48),
{
    let now = s.take(i + 1);
    assert(now.drop_last() =~= s.take(i));
    assert(now.last() == s[i]);
}

/// A numeral denotes at least what any of its prefixes denotes.
proof fn lemma_decimal_value_monotone(s: Seq<char>, i: int)
    requires
        is_numeral(s),
        0 <= i <= s.len(),
    ensures
        decimal_value(s.take(i)) <= decimal_value(s),
    decreases s.len() - i,
{
    if i == s.len() {
        assert(s.take(i) =~= s);
    } else {
        assert(is_digit(s[i]));
        lemma_decimal_value_push(s, i);
        lemma_decimal_value_monotone(s, i + 1);
        assert(decimal_value(s.take(i)) * 10 >= decimal_value(s.take(i))) by (nonlinear_arith);
    }
}

/// The number that the digits denote, where they are a numeral and the
/// number is below two to the 64th.
fn numeral_value(digits: &[char]) -> (r: Option<u128>)
    ensures
        is_numeral(digits@) && decimal_value(digits@) < 0x1_0000_0000_0000_0000 ==> r == Some(
            decimal_value(digits@) as u128,
        ),
        !(is_numeral(digits@) && decimal_value(digits@) < 0x1_0000_0000_0000_0000) ==> r is None,
{
    if digits.len() == 0 {
        return None;
    }
    let mut i: usize = 0;
    while i < digits.len()
        invariant
            i <= digits@.len(),
            forall|k: int| 0 <= k < i ==> is_digit(#[trigger] digits@[k]),
        decreases digits@.len() - i,
    {
        let code = code_point(digits[i]);
        if code < 48 || code > 57 {
            return None;
        }
        i += 1;
    }
    let mut value: u128 = 0;
    let mut i: usize = 0;
    while i < digits.len()
        invariant
            i <= digits@.len(),
            is_numeral(digits@),
            value == decimal_value(digits@.take(i as int)),
            value < 0x1_0000_0000_0000_0000,
        decreases digits@.len() - i,
    {
        proof {
            assert(is_digit(digits@[i as int]));
            lemma_decimal_value_push(digits@, i as int);
            lemma_decimal_value_monotone(digits@, i + 1);
        }
        let digit = (code_point(digits[i]) - 48) as u128;
        value = value * 10 + digit;
        if value >= 0x1_0000_0000_0000_0000 {
            return None;
        }
        i += 1;
    }
    proof {
        assert(digits@.take(i as int) =~= digits@);
    }
    Some(value)
}

/// The characters of `word` without the first `from` of them.
fn rest_of(word: &[char], from: usize) -> (r: Vec<char>)
    requires
        from <= word@.len(),
    ensures
        r@ == word@.skip(from as int),
{
    let mut r: Vec<char> = Vec::new();
    let mut i: usize = from;
    while i < word.len()
        invariant
            from <= i <= word@.len(),
            r@ == word@.subrange(from as int, i as int),
        decreases word@.len() - i,
    {
        r.push(word[i]);
        i += 1;
        proof {
            assert(r@ =~= word@.subrange(from as int, i as int));
        }
    }
    proof {
        assert(word@.subrange(from as int, i as int) =~= word@.skip(from as int));
    }
    r
}

/// The integer that a word denotes, if it denotes one.
pub fn integer_of_word(word: &[char]) -> (r: Option<isize>)
    ensures
        word_integer(word@) is Some ==> r == Some(word_integer(word@)->Some_0 as isize),
        word_integer(word@) is None ==> r is None,
{
    let negative = word.len() > 0 && word[0] == '-';
    let signed = word.len() > 0 && (word[0] == '-' || word[0] == '+');
    let digits = if signed {
        rest_of(word, 1)
    } else {
        rest_of(word, 0)
    };
    proof {
        assert(word@.skip(0) =~= word@);
        if signed {
            assert(word@.skip(1) =~= word@.drop_first());
        }
    }
    match numeral_value(digits.as_slice()) {
        Some(value) => {
            let most: u128 = isize::MAX as u128;
            if negative {
                if value <= most {
                    Some(-(value as isize))
                } else if value == most + 1 {
                    Some(isize::MIN)
                } else {
                    None
                }
            } else if value <= most {
                Some(value as isize)
            } else {
                None
            }
        },
        None => None,
    }
}

/// The operator that a character stands for, if it stands for one.
pub fn operator_of_char(c: char) -> (r: Option<Operator>)
    ensures
        r == char_operator(c),
{
    if c == '^' {
        Some(Operator::Redirect(Direction::Up))
    } else if c == 'v' {
        Some(Operator::Redirect(Direction::Down))
    } else if c == '<' {
        Some(Operator::Redirect(Direction::Left))
    } else if c == '>' {
        Some(Operator::Redirect(Direction::Right))
    } else if c == '+' {
        Some(Operator::Add)
    } else if c == '-' {
        Some(Operator::Sub)
    } else if c == '*' {
        Some(Operator::Mul)
    } else if c == '/' {
        Some(Operator::Div)
    } else if c == '%' {
        Some(Operator::Mod)
    } else if c == '@' {
        Some(Operator::Warp)
    } else if c == '=' {
        Some(Operator::Eq)
    } else if c == '#' {
        Some(Operator::Neq)
    } else if c == 'S' {
        Some(Operator::Submit)
    } else if c == 'A' {
        Some(Operator::Alpha)
    } else if c == 'B' {
        Some(Operator::Beta)
    } else {
        None
    }
}

/// The cell that a word stands for.
pub fn cell_of_word(word: &[char]) -> (r: Result<Token, Error>)
    ensures
        r == token_of_word(word@),
{
    if word.len() == 1 && word[0] == '.' {
        proof {
            assert(word@ =~= seq!['.']);
        }
        return Ok(Token::Empty);
    }
    proof {
        assert(word@ != seq!['.']) by {
            if word@ == seq!['.'] {
                assert(seq!['.'].len() == 1);
                assert(seq!['.'][0] == '.');
            }
        }
    }
    match integer_of_word(word) {
        Some(value) => Ok(Token::Integer(value)),
        None => {
            if word.len() == 1 {
                match operator_of_char(word[0]) {
                    Some(operator) => Ok(Token::Operator(operator)),
                    None => Err(Error::Tokenize),
                }
            } else {
                Err(Error::Tokenize)
            }
        },
    }
}

/// The cells of the words of a line.
pub fn cells_of_line(line: &[char]) -> (r: Result<Vec<Token>, Error>)
    ensures
        row_outcome(r) == cells_from(line@, 0),
{
    let mut cells: Vec<Token> = Vec::new();
    let mut pos: usize = 0;
    proof {
        assert(cells@ + cells_from(line@, 0)->Ok_0 =~= cells_from(line@, 0)->Ok_0);
    }
    while pos < line.len()
        invariant
            pos <= line@.len(),
            cells_from(line@, 0) == row_then(cells@, cells_from(line@, pos as int)),
        decreases line@.len() - pos,
    {
        if whitespace(line[pos]) {
            pos += 1;
        } else {
            let ghost start = pos as int;
            let ghost done = cells@;
            let mut word: Vec<char> = Vec::new();
            proof {
                lemma_word_end(line@, start);
            }
            while pos < line.len() && !whitespace(line[pos])
                invariant
                    0 <= start <= pos <= line@.len(),
                    word_end(line@, pos as int) == word_end(line@, start),
                    word@ == line@.subrange(start, pos as int),
                decreases line@.len() - pos,
            {
                word.push(line[pos]);
                pos += 1;
                proof {
                    assert(word@ =~= line@.subrange(start, pos as int));
                }
            }
            match cell_of_word(word.as_slice()) {
                Ok(token) => {
                    cells.push(token);
                    proof {
                        let rest = cells_from(line@, pos as int);
                        if rest is Ok {
                            assert(done + (seq![token] + rest->Ok_0) =~= done.push(token)
                                + rest->Ok_0);
                        }
                    }
                },
                Err(e) => {
                    return Err(e);
                },
            }
        }
    }
    proof {
        assert(cells@ + Seq::<Token>::empty() =~= cells@);
    }
    Ok(cells)
}

/// A tokenizer over one text of the grid language.
pub struct Tokenizer {
    input: Vec<char>,
}

impl Tokenizer {
    /// The text being read.
    pub closed spec fn input(&self) -> Seq<char> {
        self.input@
    }

    /// A tokenizer for `input`.
    pub fn new(input: &str) -> (r: Tokenizer)
        ensures
            r.input() == input@,
    {
        Tokenizer { input: chars_of(input) }
    }

    /// Every row of the text, a row for each line.
    fn rows(&self) -> (r: Result<Vec<Vec<Token>>, Error>)
        ensures
            grid_outcome(r) == rows_from(self.input(), 0),
    {
        let mut rows: Vec<Vec<Token>> = Vec::new();
        let mut pos: usize = 0;
        let ghost text = self.input@;
        proof {
            assert(grid_view(rows@) + rows_from(text, 0)->Ok_0 =~= rows_from(text, 0)->Ok_0);
        }
        loop
            invariant
                pos <= text.len(),
                text == self.input@,
                rows_from(text, 0) == row_then(grid_view(rows@), rows_from(text, pos as int)),
            decreases text.len() - pos,
        {
            let ghost start = pos as int;
            let ghost done = grid_view(rows@);
            let mut line: Vec<char> = Vec::new();
            proof {
                lemma_line_end(text, start);
            }
            while pos < self.input.len() && self.input[pos] != '\n'
                invariant
                    text == self.input@,
                    0 <= start <= pos <= text.len(),
                    line_end(text, pos as int) == line_end(text, start),
                    line@ == text.subrange(start, pos as int),
                decreases text.len() - pos,
            {
                line.push(self.input[pos]);
                pos += 1;
                proof {
                    assert(line@ =~= text.subrange(start, pos as int));
                }
            }
            let row = match cells_of_line(line.as_slice()) {
                Ok(row) => row,
                Err(e) => {
                    return Err(e);
                },
            };
            let ghost cells = row@;
            rows.push(row);
            proof {
                assert(grid_view(rows@) =~= done.push(cells));
            }
            if pos >= self.input.len() {
                proof {
                    assert(done + seq![cells] =~= done.push(cells));
                }
                return Ok(rows);
            }
            pos += 1;
            proof {
                let rest = rows_from(text, pos as int);
                if rest is Ok {
                    assert(done + (seq![cells] + rest->Ok_0) =~= done.push(cells) + rest->Ok_0);
                }
            }
        }
    }

    /// Reads the grid. Gives its rows, without the lines before the first
    /// and after the last one that holds a cell, or `Error::Tokenize` where
    /// a word stands for no cell.
    pub fn tokenize(&mut self) -> (r: Result<Vec<Vec<Token>>, Error>)
        ensures
            final(self).input() == old(self).input(),
            grid_outcome(r) == grid_of(old(self).input()),
    {
        let rows = match self.rows() {
            Ok(rows) => rows,
            Err(e) => {
                return Err(e);
            },
        };
        let ghost all = grid_view(rows@);
        let mut from: usize = 0;
        proof {
            assert(all.skip(0) =~= all);
        }
        while from < rows.len() && rows[from].len() == 0
            invariant
                from <= rows@.len(),
                all == grid_view(rows@),
                empty_rows_before(all) == from + empty_rows_before(all.skip(from as int)),
            decreases rows@.len() - from,
        {
            proof {
                let tail = all.skip(from as int);
                assert(tail[0] == all[from as int]);
                assert(tail.drop_first() =~= all.skip(from + 1));
            }
            from += 1;
        }
        let mut to: usize = rows.len();
        proof {
            assert(all.take(to as int) =~= all);
            let tail = all.skip(from as int);
            if from < rows@.len() {
                assert(tail[0] == all[from as int]);
            }
        }
        while to > from && rows[to - 1].len() == 0
            invariant
                from <= to <= rows@.len(),
                all == grid_view(rows@),
                filled_rows_end(all) == filled_rows_end(all.take(to as int)),
            decreases to,
        {
            proof {
                let head = all.take(to as int);
                assert(head.last() == all[to - 1]);
                assert(head.drop_last() =~= all.take(to - 1));
            }
            to -= 1;
        }
        proof {
            let head = all.take(to as int);
            if to > from {
                assert(head.last() == all[to - 1]);
            } else {
                lemma_filled_rows_end_bound(all, to as int, from as int);
            }
        }
        let mut grid: Vec<Vec<Token>> = Vec::new();
        let mut i: usize = from;
        while i < to
            invariant
                from <= i <= to <= rows@.len(),
                all == grid_view(rows@),
                grid_view(grid@) == all.subrange(from as int, i as int),
            decreases to - i,
        {
            let row = rows[i].clone();
            proof {
                assert(row@ =~= rows@[i as int]@);
            }
            let ghost before = grid_view(grid@);
            grid.push(row);
            i += 1;
            proof {
                assert(grid_view(grid@) =~= before.push(all[i - 1]));
                assert(grid_view(grid@) =~= all.subrange(from as int, i as int));
            }
        }
        proof {
            if !(from < to) {
                assert(grid_view(grid@) =~= Seq::<Seq<Token>>::empty());
            }
        }
        Ok(grid)
    }
}

/// Where only rows without a cell stand from `from` on up to `to`, the
/// filled rows end at `from` or before.
proof fn lemma_filled_rows_end_bound(rows: Seq<Seq<Token>>, to: int, from: int)
    requires
        0 <= to <= rows.len(),
        filled_rows_end(rows) == filled_rows_end(rows.take(to)),
    ensures
        filled_rows_end(rows) <= to,
    decreases to,
{
    lemma_filled_rows_end_max(rows.take(to));
}

/// The filled rows end within the rows.
proof fn lemma_filled_rows_end_max(rows: Seq<Seq<Token>>)
    ensures
        0 <= filled_rows_end(rows) <= rows.len(),
    decreases rows.len(),
{
    if rows.len() > 0 && rows.last().len() == 0 {
        lemma_filled_rows_end_max(rows.drop_last());
    }
}

} // verus!
