//! The tokenizer: from wire text to a flat sequence of tokens.
//!
//! The wire text is cut at spaces into runs. The first character of a run,
//! its indicator, selects what the run stands for; the rest is its body. A
//! run that fits no production becomes [`Token::Unknown`] and is left for the
//! parser to refuse, so the tokenizer fails only where a body holds a
//! character outside the wire alphabet.

use crate::alphabet::{
    digits_from_number, digits_of, digits_value, is_text, is_wire, lemma_integer_round_trip,
    lemma_wire_round_trip, number_from_digits, text_from_wire, text_of_wire, wire_from_text,
    wire_of_text,
};
use crate::chars::{chars_of, string_of};
use crate::error::Error;
use crate::integer::Integer;
use vstd::prelude::*;

verus! {

/// One token of a program.
#[derive(Debug, PartialEq, Eq)]
pub enum Token {
    /// An integer literal.
    Integer(Integer),
    /// A boolean literal.
    Boolean(bool),
    /// A string literal, as text.
    String(String),
    /// A unary operator, by its symbol.
    UnaryOperator(String),
    /// A binary operator, by its symbol.
    BinaryOperator(String),
    /// The conditional.
    If,
    /// A lambda abstraction that binds the variable with this number.
    Lambda(Integer),
    /// The variable with this number.
    Variable(Integer),
    /// A run that fits no production, as it was read.
    Unknown(String),
}

/// What a [`Token`] stands for.
pub enum TokenView {
    Integer(int),
    Boolean(bool),
    String(Seq<char>),
    UnaryOperator(Seq<char>),
    BinaryOperator(Seq<char>),
    If,
    Lambda(int),
    Variable(int),
    Unknown(Seq<char>),
}

impl View for Token {
    type V = TokenView;

    open spec fn view(&self) -> TokenView {
        match self {
            Token::Integer(value) => TokenView::Integer(value@),
            Token::Boolean(value) => TokenView::Boolean(*value),
            Token::String(value) => TokenView::String(value@),
            Token::UnaryOperator(symbol) => TokenView::UnaryOperator(symbol@),
            Token::BinaryOperator(symbol) => TokenView::BinaryOperator(symbol@),
            Token::If => TokenView::If,
            Token::Lambda(binder) => TokenView::Lambda(binder@),
            Token::Variable(binder) => TokenView::Variable(binder@),
            Token::Unknown(raw) => TokenView::Unknown(raw@),
        }
    }
}

impl Clone for Token {
    fn clone(&self) -> (r: Self)
        ensures
            r@ == self@,
    {
        match self {
            Token::Integer(value) => Token::Integer(value.clone()),
            Token::Boolean(value) => Token::Boolean(*value),
            Token::String(value) => Token::String(value.clone()),
            Token::UnaryOperator(symbol) => Token::UnaryOperator(symbol.clone()),
            Token::BinaryOperator(symbol) => Token::BinaryOperator(symbol.clone()),
            Token::If => Token::If,
            Token::Lambda(binder) => Token::Lambda(binder.clone()),
            Token::Variable(binder) => Token::Variable(binder.clone()),
            Token::Unknown(raw) => Token::Unknown(raw.clone()),
        }
    }
}

/// What each of the tokens stands for, in order.
pub open spec fn token_views(tokens: Seq<Token>) -> Seq<TokenView> {
    tokens.map_values(|t: Token| t@)
}

/// What the outcome of reading one token stands for.
pub open spec fn token_outcome(r: Result<Token, Error>) -> Result<TokenView, Error> {
    match r {
        Ok(token) => Ok(token@),
        Err(e) => Err(e),
    }
}

/// What the outcome of reading a whole text stands for.
pub open spec fn tokens_outcome(r: Result<Vec<Token>, Error>) -> Result<Seq<TokenView>, Error> {
    match r {
        Ok(tokens) => Ok(token_views(tokens@)),
        Err(e) => Err(e),
    }
}

/// The end of the run that starts at `start`: the index of the first space
/// at or after `start`, or the length of `s` where there is none.
pub open spec fn run_end(s: Seq<char>, start: int) -> int
    decreases s.len() - start,
{
    if start < 0 || start >= s.len() || s[start] == ' ' {
        start
    } else {
        run_end(s, start + 1)
    }
}

/// The run that starts at `start`.
pub open spec fn run_at(s: Seq<char>, start: int) -> Seq<char> {
    s.subrange(start, run_end(s, start))
}

/// A run without its indicator.
pub open spec fn body_of(run: Seq<char>) -> Seq<char> {
    if run.len() == 0 {
        run
    } else {
        run.drop_first()
    }
}

/// The token of a run read as a base-94 numeral.
pub open spec fn integer_token(run: Seq<char>) -> Result<TokenView, Error> {
    if is_wire(body_of(run)) {
        Ok(TokenView::Integer(digits_value(body_of(run)) as int))
    } else {
        Err(Error::Alphabet)
    }
}

/// The token of a run read as a boolean: the bare indicator `T` or `F`.
pub open spec fn boolean_token(run: Seq<char>) -> Result<TokenView, Error> {
    if run.len() == 1 && run[0] == 'T' {
        Ok(TokenView::Boolean(true))
    } else if run.len() == 1 && run[0] == 'F' {
        Ok(TokenView::Boolean(false))
    } else {
        Ok(TokenView::Unknown(run))
    }
}

/// The token of a run read as a string under the substitution cipher.
pub open spec fn string_token(run: Seq<char>) -> Result<TokenView, Error> {
    if is_wire(body_of(run)) {
        Ok(TokenView::String(text_of_wire(body_of(run))))
    } else {
        Err(Error::Alphabet)
    }
}

/// The token of a run read as a unary operator: exactly one symbol follows
/// the indicator.
pub open spec fn unary_operator_token(run: Seq<char>) -> Result<TokenView, Error> {
    if run.len() == 2 {
        Ok(TokenView::UnaryOperator(body_of(run)))
    } else {
        Ok(TokenView::Unknown(run))
    }
}

/// The token of a run read as a binary operator: exactly one symbol follows
/// the indicator.
pub open spec fn binary_operator_token(run: Seq<char>) -> Result<TokenView, Error> {
    if run.len() == 2 {
        Ok(TokenView::BinaryOperator(body_of(run)))
    } else {
        Ok(TokenView::Unknown(run))
    }
}

/// The token of a run read as the conditional: the bare indicator.
pub open spec fn if_token(run: Seq<char>) -> Result<TokenView, Error> {
    if run.len() == 1 {
        Ok(TokenView::If)
    } else {
        Ok(TokenView::Unknown(run))
    }
}

/// The token of a run read as a lambda with its binder's number.
pub open spec fn lambda_token(run: Seq<char>) -> Result<TokenView, Error> {
    if is_wire(body_of(run)) {
        Ok(TokenView::Lambda(digits_value(body_of(run)) as int))
    } else {
        Err(Error::Alphabet)
    }
}

/// The token of a run read as a variable with its binder's number.
pub open spec fn variable_token(run: Seq<char>) -> Result<TokenView, Error> {
    if is_wire(body_of(run)) {
        Ok(TokenView::Variable(digits_value(body_of(run)) as int))
    } else {
        Err(Error::Alphabet)
    }
}

/// The token of a run that no production claims.
pub open spec fn unknown_token(run: Seq<char>) -> Result<TokenView, Error> {
    Ok(TokenView::Unknown(run))
}

/// The token that a run stands for, chosen by its indicator.
pub open spec fn token_of_run(run: Seq<char>) -> Result<TokenView, Error> {
    if run.len() == 0 {
        unknown_token(run)
    } else if run[0] == 'I' {
        integer_token(run)
    } else if run[0] == 'T' || run[0] == 'F' {
        boolean_token(run)
    } else if run[0] == 'S' {
        string_token(run)
    } else if run[0] == 'U' {
        unary_operator_token(run)
    } else if run[0] == 'B' {
        binary_operator_token(run)
    } else if run[0] == '?' {
        if_token(run)
    } else if run[0] == 'L' {
        lambda_token(run)
    } else if run[0] == 'v' {
        variable_token(run)
    } else {
        unknown_token(run)
    }
}

/// `done` followed by what `rest` holds, or the error of `rest`.
pub open spec fn tokens_then(done: Seq<TokenView>, rest: Result<Seq<TokenView>, Error>) -> Result<
    Seq<TokenView>,
    Error,
> {
    match rest {
        Ok(more) => Ok(done + more),
        Err(e) => Err(e),
    }
}

/// The tokens of the runs of `s` from `pos` on, or the error of the first
/// run that has one.
pub open spec fn tokens_from(s: Seq<char>, pos: int) -> Result<Seq<TokenView>, Error>
    decreases s.len() - pos,
    via tokens_from_decreases
{
    if pos < 0 || pos >= s.len() {
        Ok(Seq::empty())
    } else if s[pos] == ' ' {
        tokens_from(s, pos + 1)
    } else {
        match token_of_run(run_at(s, pos)) {
            Ok(token) => tokens_then(seq![token], tokens_from(s, run_end(s, pos))),
            Err(e) => Err(e),
        }
    }
}

#[via_fn]
proof fn tokens_from_decreases(s: Seq<char>, pos: int) {
    if 0 <= pos < s.len() {
        lemma_run_end(s, pos);
    }
}

/// The tokens of the whole text `s`.
pub open spec fn tokens_of(s: Seq<char>) -> Result<Seq<TokenView>, Error> {
    tokens_from(s, 0)
}

/// A run ends within the text, holds no space, and stops at a space or at
/// the end of the text. It is not empty where it starts on another character
/// than a space.
pub proof fn lemma_run_end(s: Seq<char>, start: int)
    requires
        0 <= start <= s.len(),
    ensures
        start <= run_end(s, start) <= s.len(),
        forall|k: int| start <= k < run_end(s, start) ==> s[k] != ' ',
        run_end(s, start) < s.len() ==> s[run_end(s, start)] == ' ',
        start < s.len() && s[start] != ' ' ==> run_end(s, start) > start,
    decreases s.len() - start,
{
    if start < s.len() && s[start] != ' ' {
        lemma_run_end(s, start + 1);
    }
}

/// A tokenizer over one wire text.
pub struct Tokenizer {
    input: Vec<char>,
    position: usize,
}

impl Tokenizer {
    /// The text being read.
    pub closed spec fn input(&self) -> Seq<char> {
        self.input@
    }

    /// How many characters of the text have been read.
    pub closed spec fn position(&self) -> int {
        self.position as int
    }

    /// The position lies within the text.
    pub open spec fn wf(&self) -> bool {
        0 <= self.position() <= self.input().len()
    }

    /// A tokenizer at the start of `input`.
    pub fn new(input: &str) -> (r: Tokenizer)
        ensures
            r.wf(),
            r.input() == input@,
            r.position() == 0,
    {
        Tokenizer { input: chars_of(input), position: 0 }
    }

    /// Reads the rest of the text. Gives the tokens of its runs in order, or
    /// `Error::Alphabet` where the body of a numeral or of a string holds a
    /// character outside the wire alphabet; nothing counts as read then.
    pub fn tokenize(&mut self) -> (r: Result<Vec<Token>, Error>)
        requires
            old(self).wf(),
        ensures
            final(self).wf(),
            final(self).input() == old(self).input(),
            tokens_outcome(r) == tokens_from(old(self).input(), old(self).position()),
            r is Ok ==> final(self).position() == old(self).input().len(),
            r is Err ==> final(self).position() == old(self).position(),
    {
        let mut tokens: Vec<Token> = Vec::new();
        let begin = self.position;
        let ghost text = self.input@;
        let ghost start = self.position as int;
        proof {
            assert(token_views(tokens@) + tokens_from(text, start)->Ok_0 =~= tokens_from(
                text,
                start,
            )->Ok_0);
        }
        while self.position < self.input.len()
            invariant
                self.wf(),
                self.input@ == text,
                text == old(self).input(),
                start == old(self).position(),
                begin == start,
                start <= self.position,
                tokens_from(text, start) == tokens_then(
                    token_views(tokens@),
                    tokens_from(text, self.position as int),
                ),
            decreases self.input@.len() - self.position,
        {
            let c = self.input[self.position];
            let ghost here = self.position as int;
            let ghost done = token_views(tokens@);
            proof {
                lemma_run_end(text, here);
            }
            if c == ' ' {
                self.position += 1;
            } else {
                let outcome = if c == 'I' {
                    self.tokenize_integer()
                } else if c == 'T' || c == 'F' {
                    self.tokenize_boolean()
                } else if c == 'S' {
                    self.tokenize_string()
                } else if c == 'U' {
                    self.tokenize_unary_operator()
                } else if c == 'B' {
                    self.tokenize_binary_operator()
                } else if c == '?' {
                    self.tokenize_if()
                } else if c == 'L' {
                    self.tokenize_lambda()
                } else if c == 'v' {
                    self.tokenize_variable()
                } else {
                    self.tokenize_unknown()
                };
                proof {
                    assert(run_at(text, here)[0] == c);
                    assert(token_outcome(outcome) == token_of_run(run_at(text, here)));
                }
                match outcome {
                    Ok(token) => {
                        let ghost view = token@;
                        tokens.push(token);
                        proof {
                            assert(token_views(tokens@) =~= done.push(view));
                            let rest = tokens_from(text, self.position as int);
                            if rest is Ok {
                                assert(done + (seq![view] + rest->Ok_0) =~= done.push(view)
                                    + rest->Ok_0);
                            }
                        }
                    },
                    Err(e) => {
                        self.position = begin;
                        return Err(e);
                    },
                }
            }
        }
        proof {
            assert(token_views(tokens@) + Seq::<TokenView>::empty() =~= token_views(tokens@));
        }
        Ok(tokens)
    }

    /// Reads up to the next space or the end of the text, and gives what it
    /// passed over.
    fn take_run(&mut self) -> (run: Vec<char>)
        requires
            old(self).wf(),
        ensures
            final(self).wf(),
            final(self).input() == old(self).input(),
            final(self).position() == run_end(old(self).input(), old(self).position()),
            run@ == run_at(old(self).input(), old(self).position()),
    {
        let mut run: Vec<char> = Vec::new();
        let ghost text = self.input@;
        let ghost start = self.position as int;
        proof {
            lemma_run_end(text, start);
        }
        while self.position < self.input.len() && self.input[self.position] != ' '
            invariant
                self.input@ == text,
                0 <= start <= self.position <= text.len(),
                run_end(text, self.position as int) == run_end(text, start),
                run@ == text.subrange(start, self.position as int),
            decreases text.len() - self.position,
        {
            run.push(self.input[self.position]);
            self.position += 1;
            proof {
                assert(run@ =~= text.subrange(start, self.position as int));
            }
        }
        run
    }

    /// Reads one run as an integer literal.
    pub fn tokenize_integer(&mut self) -> (r: Result<Token, Error>)
        requires
            old(self).wf(),
        ensures
            final(self).wf(),
            final(self).input() == old(self).input(),
            final(self).position() == run_end(old(self).input(), old(self).position()),
            token_outcome(r) == integer_token(run_at(old(self).input(), old(self).position())),
    {
        let run = self.take_run();
        let body = body_from(&run);
        match number_from_digits(body.as_slice()) {
            Ok(value) => Ok(Token::Integer(value)),
            Err(e) => Err(e),
        }
    }

    /// Reads one run as a boolean literal.
    pub fn tokenize_boolean(&mut self) -> (r: Result<Token, Error>)
        requires
            old(self).wf(),
        ensures
            final(self).wf(),
            final(self).input() == old(self).input(),
            final(self).position() == run_end(old(self).input(), old(self).position()),
            token_outcome(r) == boolean_token(run_at(old(self).input(), old(self).position())),
    {
        let run = self.take_run();
        if run.len() == 1 && run[0] == 'T' {
            Ok(Token::Boolean(true))
        } else if run.len() == 1 && run[0] == 'F' {
            Ok(Token::Boolean(false))
        } else {
            Ok(Token::Unknown(string_of(run.as_slice())))
        }
    }

    /// Reads one run as a string literal.
    pub fn tokenize_string(&mut self) -> (r: Result<Token, Error>)
        requires
            old(self).wf(),
        ensures
            final(self).wf(),
            final(self).input() == old(self).input(),
            final(self).position() == run_end(old(self).input(), old(self).position()),
            token_outcome(r) == string_token(run_at(old(self).input(), old(self).position())),
    {
        let run = self.take_run();
        let body = body_from(&run);
        match text_from_wire(body.as_slice()) {
            Ok(text) => Ok(Token::String(string_of(text.as_slice()))),
            Err(e) => Err(e),
        }
    }

    /// Reads one run as a unary operator.
    pub fn tokenize_unary_operator(&mut self) -> (r: Result<Token, Error>)
        requires
            old(self).wf(),
        ensures
            final(self).wf(),
            final(self).input() == old(self).input(),
            final(self).position() == run_end(old(self).input(), old(self).position()),
            token_outcome(r) == unary_operator_token(
                run_at(old(self).input(), old(self).position()),
            ),
    {
        let run = self.take_run();
        if run.len() == 2 {
            let body = body_from(&run);
            Ok(Token::UnaryOperator(string_of(body.as_slice())))
        } else {
            Ok(Token::Unknown(string_of(run.as_slice())))
        }
    }

    /// Reads one run as a binary operator.
    pub fn tokenize_binary_operator(&mut self) -> (r: Result<Token, Error>)
        requires
            old(self).wf(),
        ensures
            final(self).wf(),
            final(self).input() == old(self).input(),
            final(self).position() == run_end(old(self).input(), old(self).position()),
            token_outcome(r) == binary_operator_token(
                run_at(old(self).input(), old(self).position()),
            ),
    {
        let run = self.take_run();
        if run.len() == 2 {
            let body = body_from(&run);
            Ok(Token::BinaryOperator(string_of(body.as_slice())))
        } else {
            Ok(Token::Unknown(string_of(run.as_slice())))
        }
    }

    /// Reads one run as the conditional.
    pub fn tokenize_if(&mut self) -> (r: Result<Token, Error>)
        requires
            old(self).wf(),
        ensures
            final(self).wf(),
            final(self).input() == old(self).input(),
            final(self).position() == run_end(old(self).input(), old(self).position()),
            token_outcome(r) == if_token(run_at(old(self).input(), old(self).position())),
    {
        let run = self.take_run();
        if run.len() == 1 {
            Ok(Token::If)
        } else {
            Ok(Token::Unknown(string_of(run.as_slice())))
        }
    }

    /// Reads one run as a lambda.
    pub fn tokenize_lambda(&mut self) -> (r: Result<Token, Error>)
        requires
            old(self).wf(),
        ensures
            final(self).wf(),
            final(self).input() == old(self).input(),
            final(self).position() == run_end(old(self).input(), old(self).position()),
            token_outcome(r) == lambda_token(run_at(old(self).input(), old(self).position())),
    {
        let run = self.take_run();
        let body = body_from(&run);
        match number_from_digits(body.as_slice()) {
            Ok(binder) => Ok(Token::Lambda(binder)),
            Err(e) => Err(e),
        }
    }

    /// Reads one run as a variable.
    pub fn tokenize_variable(&mut self) -> (r: Result<Token, Error>)
        requires
            old(self).wf(),
        ensures
            final(self).wf(),
            final(self).input() == old(self).input(),
            final(self).position() == run_end(old(self).input(), old(self).position()),
            token_outcome(r) == variable_token(run_at(old(self).input(), old(self).position())),
    {
        let run = self.take_run();
        let body = body_from(&run);
        match number_from_digits(body.as_slice()) {
            Ok(binder) => Ok(Token::Variable(binder)),
            Err(e) => Err(e),
        }
    }

    /// Reads one run that no production claims.
    pub fn tokenize_unknown(&mut self) -> (r: Result<Token, Error>)
        requires
            old(self).wf(),
        ensures
            final(self).wf(),
            final(self).input() == old(self).input(),
            final(self).position() == run_end(old(self).input(), old(self).position()),
            token_outcome(r) == unknown_token(run_at(old(self).input(), old(self).position())),
    {
        let run = self.take_run();
        Ok(Token::Unknown(string_of(run.as_slice())))
    }
}

/// The body of a run: the run without its first character.
fn body_from(run: &Vec<char>) -> (body: Vec<char>)
    ensures
        body@ == body_of(run@),
{
    let mut body: Vec<char> = Vec::new();
    let mut i: usize = 1;
    while i < run.len()
        invariant
            1 <= i,
            i <= run@.len() || run@.len() == 0,
            run@.len() > 0 ==> body@ == run@.subrange(1, i as int),
            run@.len() == 0 ==> body@.len() == 0,
        decreases run@.len() - i,
    {
        body.push(run[i]);
        i += 1;
        proof {
            assert(body@ =~= run@.subrange(1, i as int));
        }
    }
    proof {
        if run@.len() == 0 {
            assert(body@ =~= run@);
        } else {
            assert(run@.subrange(1, i as int) =~= run@.drop_first());
        }
    }
    body
}

/// The run that writes a number after `indicator`, or `Error::Range` for a
/// negative number, which has no numeral.
pub open spec fn numeral_run(indicator: char, value: int) -> Result<Seq<char>, Error> {
    if value >= 0 {
        Ok(seq![indicator] + digits_of(value as nat))
    } else {
        Err(Error::Range)
    }
}

/// The run that writes a token: its indicator and its body. A negative
/// number is `Error::Range`, a string with a character outside the text
/// alphabet is `Error::Alphabet`. An unknown token is written as it was
/// read.
pub open spec fn token_run(token: TokenView) -> Result<Seq<char>, Error> {
    match token {
        TokenView::Integer(value) => numeral_run('I', value),
        TokenView::Boolean(value) => Ok(
            if value {
                seq!['T']
            } else {
                seq!['F']
            },
        ),
        TokenView::String(value) => if is_text(value) {
            Ok(seq!['S'] + wire_of_text(value))
        } else {
            Err(Error::Alphabet)
        },
        TokenView::UnaryOperator(symbol) => Ok(seq!['U'] + symbol),
        TokenView::BinaryOperator(symbol) => Ok(seq!['B'] + symbol),
        TokenView::If => Ok(seq!['?']),
        TokenView::Lambda(binder) => numeral_run('L', binder),
        TokenView::Variable(binder) => numeral_run('v', binder),
        TokenView::Unknown(raw) => Ok(raw),
    }
}

/// What the outcome of writing stands for.
pub open spec fn text_outcome(r: Result<String, Error>) -> Result<Seq<char>, Error> {
    match r {
        Ok(text) => Ok(text@),
        Err(e) => Err(e),
    }
}

/// Whether a token is one that the tokenizer gives for a run of its own
/// production: a number that is not negative, a string of the text
/// alphabet, an operator of one symbol of the wire alphabet. Unknown tokens
/// are left out.
pub open spec fn is_wire_token(token: TokenView) -> bool {
    match token {
        TokenView::Integer(value) => value >= 0,
        TokenView::Boolean(_) => true,
        TokenView::String(value) => is_text(value),
        TokenView::UnaryOperator(symbol) => symbol.len() == 1 && is_wire(symbol),
        TokenView::BinaryOperator(symbol) => symbol.len() == 1 && is_wire(symbol),
        TokenView::If => true,
        TokenView::Lambda(binder) => binder >= 0,
        TokenView::Variable(binder) => binder >= 0,
        TokenView::Unknown(_) => false,
    }
}

/// Writing a token and reading the run gives the token back.
pub proof fn lemma_token_round_trip(token: TokenView)
    requires
        is_wire_token(token),
    ensures
        token_run(token) is Ok,
        token_of_run(token_run(token)->Ok_0) == Ok::<TokenView, Error>(token),
{
    let run = token_run(token)->Ok_0;
    match token {
        TokenView::Integer(value) => {
            lemma_integer_round_trip(value as nat);
            assert(body_of(run) =~= digits_of(value as nat));
        },
        TokenView::Lambda(value) => {
            lemma_integer_round_trip(value as nat);
            assert(body_of(run) =~= digits_of(value as nat));
        },
        TokenView::Variable(value) => {
            lemma_integer_round_trip(value as nat);
            assert(body_of(run) =~= digits_of(value as nat));
        },
        TokenView::String(value) => {
            lemma_wire_round_trip(value);
            assert(body_of(run) =~= wire_of_text(value));
        },
        TokenView::UnaryOperator(symbol) => {
            assert(body_of(run) =~= symbol);
        },
        TokenView::BinaryOperator(symbol) => {
            assert(body_of(run) =~= symbol);
        },
        _ => {},
    }
}

/// The string made of `indicator` and then the characters of `body`.
fn with_indicator(indicator: char, body: &[char]) -> (r: String)
    ensures
        r@ == seq![indicator] + body@,
{
    let mut run: Vec<char> = Vec::new();
    run.push(indicator);
    let mut i: usize = 0;
    while i < body.len()
        invariant
            i <= body@.len(),
            run@ == seq![indicator] + body@.take(i as int),
        decreases body@.len() - i,
    {
        run.push(body[i]);
        i += 1;
        proof {
            assert(run@ =~= seq![indicator] + body@.take(i as int));
        }
    }
    proof {
        assert(body@.take(i as int) =~= body@);
    }
    string_of(run.as_slice())
}

/// The run that writes a number after `indicator`.
fn numeral_with_indicator(indicator: char, value: &Integer) -> (r: Result<String, Error>)
    ensures
        text_outcome(r) == numeral_run(indicator, value@),
{
    if value.is_negative() {
        Err(Error::Range)
    } else {
        let digits = digits_from_number(value);
        Ok(with_indicator(indicator, digits.as_slice()))
    }
}

impl Token {
    /// The run that writes the token on the wire.
    pub fn to_string(&self) -> (r: Result<String, Error>)
        ensures
            text_outcome(r) == token_run(self@),
    {
        match self {
            Token::Integer(value) => numeral_with_indicator('I', value),
            Token::Boolean(value) => {
                let empty: Vec<char> = Vec::new();
                if *value {
                    Ok(with_indicator('T', empty.as_slice()))
                } else {
                    Ok(with_indicator('F', empty.as_slice()))
                }
            },
            Token::String(value) => {
                let text = chars_of(value.as_str());
                match wire_from_text(text.as_slice()) {
                    Ok(wire) => Ok(with_indicator('S', wire.as_slice())),
                    Err(e) => Err(e),
                }
            },
            Token::UnaryOperator(symbol) => {
                let body = chars_of(symbol.as_str());
                Ok(with_indicator('U', body.as_slice()))
            },
            Token::BinaryOperator(symbol) => {
                let body = chars_of(symbol.as_str());
                Ok(with_indicator('B', body.as_slice()))
            },
            Token::If => {
                let empty: Vec<char> = Vec::new();
                Ok(with_indicator('?', empty.as_slice()))
            },
            Token::Lambda(binder) => numeral_with_indicator('L', binder),
            Token::Variable(binder) => numeral_with_indicator('v', binder),
            Token::Unknown(raw) => Ok(raw.clone()),
        }
    }
}

/// The wire text of a sequence of tokens: their runs in order, with one
/// space between neighbours, or the error of the first token that has one.
pub open spec fn tokens_text(tokens: Seq<TokenView>) -> Result<Seq<char>, Error>
    decreases tokens.len(),
{
    if tokens.len() == 0 {
        Ok(Seq::empty())
    } else {
        match tokens_text(tokens.drop_last()) {
            Ok(head) => match token_run(tokens.last()) {
                Ok(run) => Ok(
                    if tokens.len() == 1 {
                        run
                    } else {
                        head + seq![' '] + run
                    },
                ),
                Err(e) => Err(e),
            },
            Err(e) => Err(e),
        }
    }
}

/// The error of a prefix of the tokens is the error of them all.
proof fn lemma_tokens_text_error(tokens: Seq<TokenView>, n: int)
    requires
        0 <= n <= tokens.len(),
        tokens_text(tokens.take(n)) is Err,
    ensures
        tokens_text(tokens) == tokens_text(tokens.take(n)),
    decreases tokens.len() - n,
{
    if n == tokens.len() {
        assert(tokens.take(n) =~= tokens);
    } else {
        assert(tokens.take(n + 1).drop_last() =~= tokens.take(n));
        lemma_tokens_text_error(tokens, n + 1);
    }
}

/// Writes the tokens on the wire: their runs in order, with one space
/// between neighbours.
pub fn write_tokens(tokens: &[Token]) -> (r: Result<String, Error>)
    ensures
        text_outcome(r) == tokens_text(token_views(tokens@)),
{
    let mut text: Vec<char> = Vec::new();
    let ghost views = token_views(tokens@);
    let mut i: usize = 0;
    while i < tokens.len()
        invariant
            i <= tokens@.len(),
            views == token_views(tokens@),
            tokens_text(views.take(i as int)) == Ok::<Seq<char>, Error>(text@),
        decreases tokens@.len() - i,
    {
        proof {
            assert(views.take(i + 1).drop_last() =~= views.take(i as int));
            assert(views.take(i + 1).last() == tokens@[i as int]@);
        }
        match tokens[i].to_string() {
            Ok(run) => {
                if i > 0 {
                    text.push(' ');
                }
                let mut more = chars_of(run.as_str());
                text.append(&mut more);
            },
            Err(e) => {
                proof {
                    lemma_tokens_text_error(views, i + 1);
                }
                return Err(e);
            },
        }
        i += 1;
        proof {
            assert(tokens_text(views.take(i as int))->Ok_0 =~= text@);
        }
    }
    proof {
        assert(views.take(i as int) =~= views);
    }
    Ok(string_of(text.as_slice()))
}

/// Whether `run` is a run: not empty and without a space.
pub open spec fn is_run(run: Seq<char>) -> bool {
    run.len() > 0 && forall|i: int| 0 <= i < run.len() ==> run[i] != ' '
}

/// What a wire token is written as is a run.
pub proof fn lemma_token_run_is_run(token: TokenView)
    requires
        is_wire_token(token),
    ensures
        token_run(token) is Ok,
        is_run(token_run(token)->Ok_0),
{
    let run = token_run(token)->Ok_0;
    match token {
        TokenView::Integer(value) => {
            lemma_integer_round_trip(value as nat);
            assert forall|i: int| 0 <= i < run.len() implies run[i] != ' ' by {
                if i > 0 {
                    assert(run[i] == digits_of(value as nat)[i - 1]);
                }
            }
        },
        TokenView::Lambda(value) => {
            lemma_integer_round_trip(value as nat);
            assert forall|i: int| 0 <= i < run.len() implies run[i] != ' ' by {
                if i > 0 {
                    assert(run[i] == digits_of(value as nat)[i - 1]);
                }
            }
        },
        TokenView::Variable(value) => {
            lemma_integer_round_trip(value as nat);
            assert forall|i: int| 0 <= i < run.len() implies run[i] != ' ' by {
                if i > 0 {
                    assert(run[i] == digits_of(value as nat)[i - 1]);
                }
            }
        },
        TokenView::String(value) => {
            lemma_wire_round_trip(value);
            assert forall|i: int| 0 <= i < run.len() implies run[i] != ' ' by {
                if i > 0 {
                    assert(run[i] == wire_of_text(value)[i - 1]);
                }
            }
        },
        TokenView::UnaryOperator(symbol) => {
            assert forall|i: int| 0 <= i < run.len() implies run[i] != ' ' by {
                if i > 0 {
                    assert(run[i] == symbol[i - 1]);
                }
            }
        },
        TokenView::BinaryOperator(symbol) => {
            assert forall|i: int| 0 <= i < run.len() implies run[i] != ' ' by {
                if i > 0 {
                    assert(run[i] == symbol[i - 1]);
                }
            }
        },
        _ => {},
    }
}

/// The end of a run is where the first space at or after its start is.
proof fn lemma_run_end_is(s: Seq<char>, start: int, end: int)
    requires
        0 <= start <= end <= s.len(),
        forall|k: int| start <= k < end ==> s[k] != ' ',
        end < s.len() ==> s[end] == ' ',
    ensures
        run_end(s, start) == end,
    decreases end - start,
{
    if start < end {
        lemma_run_end_is(s, start + 1, end);
    }
}

/// A text with one more run behind a space has the tokens of the text and
/// then the token of the run.
proof fn lemma_tokens_of_appended(a: Seq<char>, run: Seq<char>, token: TokenView, pos: int)
    requires
        0 <= pos <= a.len(),
        is_run(run),
        token_of_run(run) == Ok::<TokenView, Error>(token),
        tokens_from(a, pos) is Ok,
    ensures
        tokens_from(a + seq![' '] + run, pos) == Ok::<Seq<TokenView>, Error>(
            tokens_from(a, pos)->Ok_0.push(token),
        ),
    decreases a.len() - pos,
{
    let s = a + seq![' '] + run;
    if pos == a.len() {
        assert(s[pos] == ' ');
        assert forall|k: int| pos + 1 <= k < s.len() implies s[k] != ' ' by {
            assert(s[k] == run[k - pos - 1]);
        }
        lemma_run_end_is(s, pos + 1, s.len() as int);
        assert(run_at(s, pos + 1) =~= run);
        assert(s[pos + 1] == run[0]);
        assert(tokens_from(s, s.len() as int) == Ok::<Seq<TokenView>, Error>(Seq::empty()));
        assert(seq![token] + Seq::<TokenView>::empty() =~= Seq::<TokenView>::empty().push(token));
        assert(tokens_from(s, pos + 1) == Ok::<Seq<TokenView>, Error>(
            Seq::<TokenView>::empty().push(token),
        ));
    } else if a[pos] == ' ' {
        assert(s[pos] == ' ');
        lemma_tokens_of_appended(a, run, token, pos + 1);
    } else {
        lemma_run_end(a, pos);
        let end = run_end(a, pos);
        assert(s[pos] == a[pos]);
        assert forall|k: int| pos <= k < end implies s[k] != ' ' by {
            assert(s[k] == a[k]);
        }
        assert(s[end] == ' ') by {
            if end < a.len() {
                assert(s[end] == a[end]);
            }
        }
        lemma_run_end_is(s, pos, end);
        assert(run_at(s, pos) =~= run_at(a, pos));
        lemma_tokens_of_appended(a, run, token, end);
        let first = token_of_run(run_at(a, pos))->Ok_0;
        let rest = tokens_from(a, end)->Ok_0;
        assert(seq![first] + rest.push(token) =~= (seq![first] + rest).push(token));
    }
}

/// Writing tokens and reading the text gives the tokens back.
pub proof fn lemma_tokens_round_trip(tokens: Seq<TokenView>)
    requires
        forall|i: int| 0 <= i < tokens.len() ==> is_wire_token(#[trigger] tokens[i]),
    ensures
        tokens_text(tokens) is Ok,
        tokens_of(tokens_text(tokens)->Ok_0) == Ok::<Seq<TokenView>, Error>(tokens),
    decreases tokens.len(),
{
    if tokens.len() == 0 {
        assert(tokens =~= Seq::<TokenView>::empty());
    } else {
        let head = tokens.drop_last();
        let last = tokens.last();
        assert forall|i: int| 0 <= i < head.len() implies is_wire_token(#[trigger] head[i]) by {
            assert(head[i] == tokens[i]);
        }
        lemma_tokens_round_trip(head);
        assert(is_wire_token(last));
        lemma_token_round_trip(last);
        lemma_token_run_is_run(last);
        let run = token_run(last)->Ok_0;
        if tokens.len() == 1 {
            lemma_run_end_is(run, 0, run.len() as int);
            assert(run_at(run, 0) =~= run);
            assert(tokens_from(run, run.len() as int) == Ok::<Seq<TokenView>, Error>(
                Seq::empty(),
            ));
            assert(seq![last] + Seq::<TokenView>::empty() =~= tokens);
        } else {
            let text = tokens_text(head)->Ok_0;
            lemma_tokens_of_appended(text, run, last, 0);
            assert(head.push(last) =~= tokens);
        }
    }
}

} // verus!
