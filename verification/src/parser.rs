//! The parser: from a flat sequence of tokens to a syntax tree.
//!
//! Programs are written in prefix form with fixed arities, so one token of
//! lookahead decides every production and the parser never backtracks.

use crate::error::Error;
use crate::integer::{decimal, Integer};
use crate::term::{term_tokens, Term};
use crate::tokenizer::{
    is_wire_token, lemma_tokens_round_trip, text_outcome, token_views, tokens_of, tokens_text,
    write_tokens, Token, TokenView,
};
use vstd::prelude::*;
use vstd::string::StringExecFns;

verus! {

/// A syntax tree.
#[derive(Debug, PartialEq, Eq, Hash)]
pub enum Node {
    /// An integer literal.
    Integer(Integer),
    /// A string literal, as text.
    String(String),
    /// A boolean literal.
    Boolean(bool),
    /// The variable with this number.
    Variable(Integer),
    /// A unary operator, by its symbol, and its operand.
    UnaryOperator(String, Box<Node>),
    /// A binary operator, by its symbol, and its two operands.
    BinaryOperator(String, Box<Node>, Box<Node>),
    /// The conditional: condition, first branch, second branch.
    If(Box<Node>, Box<Node>, Box<Node>),
    /// An abstraction: the number of the variable it binds, and its body.
    Lambda(Integer, Box<Node>),
}

impl Node {
    /// The term that the tree stands for.
    pub open spec fn term(self) -> Term
        decreases self,
    {
        match self {
            Node::Integer(value) => Term::Integer(value@),
            Node::String(value) => Term::String(value@),
            Node::Boolean(value) => Term::Boolean(value),
            Node::Variable(binder) => Term::Variable(binder@),
            Node::UnaryOperator(symbol, operand) => Term::UnaryOperator(
                symbol@,
                Box::new((*operand).term()),
            ),
            Node::BinaryOperator(symbol, left, right) => Term::BinaryOperator(
                symbol@,
                Box::new((*left).term()),
                Box::new((*right).term()),
            ),
            Node::If(condition, first, second) => Term::If(
                Box::new((*condition).term()),
                Box::new((*first).term()),
                Box::new((*second).term()),
            ),
            Node::Lambda(binder, body) => Term::Lambda(binder@, Box::new((*body).term())),
        }
    }
}

impl Node {
    /// The tokens of the tree in the order in which a program writes them:
    /// each operator before its operands.
    pub fn tokens(&self) -> (r: Vec<Token>)
        ensures
            token_views(r@) == term_tokens(self@),
    {
        let mut tokens: Vec<Token> = Vec::new();
        self.traverse(&mut tokens);
        proof {
            assert(token_views(tokens@) =~= term_tokens(self@));
        }
        tokens
    }

    /// Puts the tokens of the tree behind those that `tokens` holds.
    fn traverse(&self, tokens: &mut Vec<Token>)
        ensures
            token_views(final(tokens)@) == token_views(old(tokens)@) + term_tokens(self@),
        decreases self,
    {
        let ghost before = token_views(tokens@);
        match self {
            Node::Integer(value) => {
                tokens.push(Token::Integer(value.clone()));
            },
            Node::String(value) => {
                tokens.push(Token::String(value.clone()));
            },
            Node::Boolean(value) => {
                tokens.push(Token::Boolean(*value));
            },
            Node::Variable(binder) => {
                tokens.push(Token::Variable(binder.clone()));
            },
            Node::UnaryOperator(symbol, operand) => {
                tokens.push(Token::UnaryOperator(symbol.clone()));
                (**operand).traverse(tokens);
            },
            Node::BinaryOperator(symbol, left, right) => {
                tokens.push(Token::BinaryOperator(symbol.clone()));
                (**left).traverse(tokens);
                (**right).traverse(tokens);
            },
            Node::If(condition, first, second) => {
                tokens.push(Token::If);
                (**condition).traverse(tokens);
                (**first).traverse(tokens);
                (**second).traverse(tokens);
            },
            Node::Lambda(binder, body) => {
                tokens.push(Token::Lambda(binder.clone()));
                (**body).traverse(tokens);
            },
        }
        proof {
            assert(token_views(tokens@) =~= before + term_tokens(self@));
        }
    }

    /// The wire text of the tree: the runs of its tokens with one space
    /// between neighbours. A negative number in the tree is `Error::Range`,
    /// a string with a character outside the text alphabet is
    /// `Error::Alphabet`.
    pub fn to_string(&self) -> (r: Result<String, Error>)
        ensures
            text_outcome(r) == term_text(self@),
    {
        let tokens = self.tokens();
        write_tokens(tokens.as_slice())
    }

    /// The name of the kind of the tree, with the symbol of an operator and
    /// the number of a lambda's binder in brackets.
    pub fn name(&self) -> (r: String)
        ensures
            r@ == term_name(self@),
    {
        match self {
            Node::Integer(_) => String::from_str("Integer"),
            Node::String(_) => String::from_str("String"),
            Node::Boolean(_) => String::from_str("Boolean"),
            Node::Variable(_) => String::from_str("Variable"),
            Node::UnaryOperator(symbol, _) => {
                let mut name = String::from_str("UnaryOperator(");
                name.append(symbol.as_str());
                name.append(")");
                name
            },
            Node::BinaryOperator(symbol, _, _) => {
                let mut name = String::from_str("BinaryOperator(");
                name.append(symbol.as_str());
                name.append(")");
                name
            },
            Node::If(_, _, _) => String::from_str("If"),
            Node::Lambda(binder, _) => {
                let mut name = String::from_str("Lambda(");
                name.append(binder.to_decimal().as_str());
                name.append(")");
                name
            },
        }
    }

    /// The tree as indented text, one line for each node, with `indent`
    /// spaces before the line of the root.
    pub fn dump_tree(&self, indent: usize) -> (r: String)
        ensures
            r@ == term_dump(self@, spaces(indent as nat)),
    {
        let mut margin = String::new();
        let mut i: usize = 0;
        while i < indent
            invariant
                i <= indent,
                margin@ == spaces(i as nat),
            decreases indent - i,
        {
            margin.push(' ');
            i += 1;
            proof {
                assert(margin@ =~= spaces(i as nat));
            }
        }
        let mut text = String::new();
        self.dump_into(margin.as_str(), &mut text);
        proof {
            assert(text@ =~= term_dump(self@, spaces(indent as nat)));
        }
        text
    }

    /// Puts the dump of the tree behind what `text` holds.
    fn dump_into(&self, margin: &str, text: &mut String)
        ensures
            final(text)@ == old(text)@ + term_dump(self@, margin@),
        decreases self,
    {
        let ghost before = text@;
        text.append(margin);
        match self {
            Node::Integer(value) => {
                text.append("Integer(");
                text.append(value.to_decimal().as_str());
                text.append(")");
                text.append("\n");
            },
            Node::String(value) => {
                text.append("String(");
                proof {
                    reveal_strlit("\n");
                }
                if value.as_str().unicode_len() == 1 && value.as_str().get_char(0) == '\n' {
                    proof {
                        assert(value@ =~= "\n"@);
                    }
                    text.append("\\n");
                } else {
                    text.append(value.as_str());
                }
                text.append(")");
                text.append("\n");
            },
            Node::Boolean(value) => {
                if *value {
                    text.append("Boolean(true)");
                } else {
                    text.append("Boolean(false)");
                }
                text.append("\n");
            },
            Node::Variable(binder) => {
                text.append("Variable(");
                text.append(binder.to_decimal().as_str());
                text.append(")");
                text.append("\n");
            },
            _ => {
                text.append(self.name().as_str());
                text.append("\n");
                let mut inner = String::from_str(margin);
                inner.append("  ");
                match self {
                    Node::UnaryOperator(_, operand) => {
                        (**operand).dump_into(inner.as_str(), text);
                    },
                    Node::BinaryOperator(_, left, right) => {
                        (**left).dump_into(inner.as_str(), text);
                        (**right).dump_into(inner.as_str(), text);
                    },
                    Node::If(condition, first, second) => {
                        (**condition).dump_into(inner.as_str(), text);
                        (**first).dump_into(inner.as_str(), text);
                        (**second).dump_into(inner.as_str(), text);
                    },
                    Node::Lambda(_, body) => {
                        (**body).dump_into(inner.as_str(), text);
                    },
                    _ => {},
                }
            },
        }
        proof {
            assert(text@ =~= before + term_dump(self@, margin@));
        }
    }

    /// Whether both trees stand for the same term.
    pub fn equals(&self, other: &Node) -> (r: bool)
        ensures
            r == (self@ == other@),
        decreases self,
    {
        match (self, other) {
            (Node::Integer(a), Node::Integer(b)) => a.equals(b),
            (Node::String(a), Node::String(b)) => *a == *b,
            (Node::Boolean(a), Node::Boolean(b)) => *a == *b,
            (Node::Variable(a), Node::Variable(b)) => a.equals(b),
            (Node::UnaryOperator(op, x), Node::UnaryOperator(other_op, y)) => *op == *other_op
                && (**x).equals(&**y),
            (
                Node::BinaryOperator(op, left, right),
                Node::BinaryOperator(other_op, other_left, other_right),
            ) => *op == *other_op && (**left).equals(&**other_left) && (**right).equals(
                &**other_right,
            ),
            (Node::If(c, a, b), Node::If(other_c, other_a, other_b)) => (**c).equals(&**other_c)
                && (**a).equals(&**other_a) && (**b).equals(&**other_b),
            (Node::Lambda(binder, body), Node::Lambda(other_binder, other_body)) => binder.equals(
                other_binder,
            ) && (**body).equals(&**other_body),
            _ => false,
        }
    }
}

impl View for Node {
    type V = Term;

    open spec fn view(&self) -> Term {
        self.term()
    }
}

impl Clone for Node {
    fn clone(&self) -> (r: Self)
        ensures
            r@ == self@,
        decreases self,
    {
        match self {
            Node::Integer(value) => Node::Integer(value.clone()),
            Node::String(value) => Node::String(value.clone()),
            Node::Boolean(value) => Node::Boolean(*value),
            Node::Variable(binder) => Node::Variable(binder.clone()),
            Node::UnaryOperator(symbol, operand) => Node::UnaryOperator(
                symbol.clone(),
                Box::new((**operand).clone()),
            ),
            Node::BinaryOperator(symbol, left, right) => Node::BinaryOperator(
                symbol.clone(),
                Box::new((**left).clone()),
                Box::new((**right).clone()),
            ),
            Node::If(condition, first, second) => Node::If(
                Box::new((**condition).clone()),
                Box::new((**first).clone()),
                Box::new((**second).clone()),
            ),
            Node::Lambda(binder, body) => Node::Lambda(
                binder.clone(),
                Box::new((**body).clone()),
            ),
        }
    }
}

/// The name of the kind of a term, with the symbol of an operator and the
/// number of a lambda's binder, in decimal, in brackets.
pub open spec fn term_name(t: Term) -> Seq<char> {
    match t {
        Term::Integer(_) => "Integer"@,
        Term::String(_) => "String"@,
        Term::Boolean(_) => "Boolean"@,
        Term::Variable(_) => "Variable"@,
        Term::UnaryOperator(symbol, _) => "UnaryOperator("@ + symbol + ")"@,
        Term::BinaryOperator(symbol, _, _) => "BinaryOperator("@ + symbol + ")"@,
        Term::If(_, _, _) => "If"@,
        Term::Lambda(binder, _) => "Lambda("@ + decimal(binder) + ")"@,
    }
}

/// One line of a dump: the margin, the text and a line feed.
pub open spec fn dump_line(margin: Seq<char>, text: Seq<char>) -> Seq<char> {
    margin + text + "\n"@
}

/// A term as an indented tree, one line for each node: the name of its kind
/// and, in brackets, what it holds; then its children, each two spaces
/// further in. A string that is a single line feed is shown as `\n`.
pub open spec fn term_dump(t: Term, margin: Seq<char>) -> Seq<char>
    decreases t,
{
    let inner = margin + "  "@;
    match t {
        Term::Integer(value) => dump_line(margin, "Integer("@ + decimal(value) + ")"@),
        Term::String(value) => dump_line(
            margin,
            "String("@ + (if value == "\n"@ {
                "\\n"@
            } else {
                value
            }) + ")"@,
        ),
        Term::Boolean(value) => dump_line(
            margin,
            if value {
                "Boolean(true)"@
            } else {
                "Boolean(false)"@
            },
        ),
        Term::Variable(binder) => dump_line(margin, "Variable("@ + decimal(binder) + ")"@),
        Term::UnaryOperator(_, operand) => dump_line(margin, term_name(t)) + term_dump(
            *operand,
            inner,
        ),
        Term::BinaryOperator(_, left, right) => dump_line(margin, term_name(t)) + term_dump(
            *left,
            inner,
        ) + term_dump(*right, inner),
        Term::If(condition, first, second) => dump_line(margin, term_name(t)) + term_dump(
            *condition,
            inner,
        ) + term_dump(*first, inner) + term_dump(*second, inner),
        Term::Lambda(_, body) => dump_line(margin, term_name(t)) + term_dump(*body, inner),
    }
}

/// `count` spaces.
pub open spec fn spaces(count: nat) -> Seq<char> {
    Seq::new(count, |i: int| ' ')
}

/// The wire text of a term: the text of its tokens.
pub open spec fn term_text(t: Term) -> Result<Seq<char>, Error> {
    tokens_text(term_tokens(t))
}

/// The term that starts at `pos` and the position after it, or why there is
/// none: `Error::Parse` where the tokens end before the term does,
/// `Error::Tokenize` where an unknown token stands in it.
///
/// A term always ends after the position it starts at and within the tokens
/// ([`lemma_parse_advances`]), so the tests of a position reached always
/// hold: they are there for the termination check.
pub open spec fn parse_at(tokens: Seq<TokenView>, pos: int) -> Result<(Term, int), Error>
    decreases tokens.len() - pos,
{
    if pos < 0 || pos >= tokens.len() {
        Err(Error::Parse)
    } else {
        match tokens[pos] {
            TokenView::Integer(value) => Ok((Term::Integer(value), pos + 1)),
            TokenView::String(value) => Ok((Term::String(value), pos + 1)),
            TokenView::Boolean(value) => Ok((Term::Boolean(value), pos + 1)),
            TokenView::Variable(binder) => Ok((Term::Variable(binder), pos + 1)),
            TokenView::UnaryOperator(symbol) => match parse_at(tokens, pos + 1) {
                Ok((operand, end)) => Ok((Term::UnaryOperator(symbol, Box::new(operand)), end)),
                Err(e) => Err(e),
            },
            TokenView::BinaryOperator(symbol) => match parse_at(tokens, pos + 1) {
                Ok((left, mid)) if pos < mid <= tokens.len() => match parse_at(tokens, mid) {
                    Ok((right, end)) => Ok(
                        (Term::BinaryOperator(symbol, Box::new(left), Box::new(right)), end),
                    ),
                    Err(e) => Err(e),
                },
                Ok(_) => Err(Error::Parse),
                Err(e) => Err(e),
            },
            TokenView::If => match parse_at(tokens, pos + 1) {
                Ok((condition, mid)) if pos < mid <= tokens.len() => match parse_at(tokens, mid) {
                    Ok((first, late)) if pos < late <= tokens.len() => match parse_at(
                        tokens,
                        late,
                    ) {
                        Ok((second, end)) => Ok(
                            (
                                Term::If(Box::new(condition), Box::new(first), Box::new(second)),
                                end,
                            ),
                        ),
                        Err(e) => Err(e),
                    },
                    Ok(_) => Err(Error::Parse),
                    Err(e) => Err(e),
                },
                Ok(_) => Err(Error::Parse),
                Err(e) => Err(e),
            },
            TokenView::Lambda(binder) => match parse_at(tokens, pos + 1) {
                Ok((body, end)) => Ok((Term::Lambda(binder, Box::new(body)), end)),
                Err(e) => Err(e),
            },
            TokenView::Unknown(_) => Err(Error::Tokenize),
        }
    }
}

/// A term ends after the position it starts at, and within the tokens.
pub proof fn lemma_parse_advances(tokens: Seq<TokenView>, pos: int)
    ensures
        parse_at(tokens, pos) is Ok ==> 0 <= pos < parse_at(tokens, pos)->Ok_0.1 <= tokens.len(),
    decreases tokens.len() - pos,
{
    if 0 <= pos < tokens.len() {
        lemma_parse_advances(tokens, pos + 1);
        let next = parse_at(tokens, pos + 1);
        if next is Ok {
            let mid = next->Ok_0.1;
            lemma_parse_advances(tokens, mid);
            let then = parse_at(tokens, mid);
            if then is Ok {
                lemma_parse_advances(tokens, then->Ok_0.1);
            }
        }
    }
}

/// What the outcome of a parse stands for: the term, and the position that
/// the parser was left at.
pub open spec fn parse_outcome(r: Result<Node, Error>, position: int) -> Result<(Term, int), Error> {
    match r {
        Ok(node) => Ok((node@, position)),
        Err(e) => Err(e),
    }
}

/// A parser over a sequence of tokens.
pub struct Parser<'a> {
    tokens: &'a [Token],
    position: usize,
}

impl<'a> Parser<'a> {
    /// The tokens being parsed.
    pub closed spec fn tokens(&self) -> Seq<TokenView> {
        token_views(self.tokens@)
    }

    /// How many tokens have been consumed.
    pub closed spec fn position(&self) -> int {
        self.position as int
    }

    /// The position lies within the tokens.
    pub open spec fn wf(&self) -> bool {
        0 <= self.position() <= self.tokens().len()
    }

    /// A parser at the first of `tokens`.
    pub fn new(tokens: &'a [Token]) -> (r: Self)
        ensures
            r.wf(),
            r.tokens() == token_views(tokens@),
            r.position() == 0,
    {
        Self { tokens, position: 0 }
    }

    /// Parses the term that starts at the current position and stops after
    /// it. Tokens that follow the term are left unread. Where there is no
    /// term, the parser stays where it was.
    pub fn parse(&mut self) -> (r: Result<Node, Error>)
        requires
            old(self).wf(),
        ensures
            final(self).wf(),
            final(self).tokens() == old(self).tokens(),
            parse_outcome(r, final(self).position()) == parse_at(
                old(self).tokens(),
                old(self).position(),
            ),
            r is Err ==> final(self).position() == old(self).position(),
    {
        self.parse_node()
    }

    /// Parses the term that starts at the current position, whatever its
    /// first token.
    pub fn parse_node(&mut self) -> (r: Result<Node, Error>)
        requires
            old(self).wf(),
        ensures
            final(self).wf(),
            final(self).tokens() == old(self).tokens(),
            parse_outcome(r, final(self).position()) == parse_at(
                old(self).tokens(),
                old(self).position(),
            ),
            r is Err ==> final(self).position() == old(self).position(),
        decreases old(self).tokens().len() - old(self).position(), 1int,
    {
        if self.position >= self.tokens.len() {
            return Err(Error::Parse);
        }
        proof {
            lemma_parse_advances(self.tokens(), self.position());
        }
        match &self.tokens[self.position] {
            Token::Integer(value) => {
                self.position += 1;
                Ok(Node::Integer(value.clone()))
            },
            Token::String(value) => {
                self.position += 1;
                Ok(Node::String(value.clone()))
            },
            Token::Boolean(value) => {
                self.position += 1;
                Ok(Node::Boolean(*value))
            },
            Token::Variable(binder) => {
                self.position += 1;
                Ok(Node::Variable(binder.clone()))
            },
            Token::UnaryOperator(_) => self.parse_unary(),
            Token::BinaryOperator(_) => self.parse_binary(),
            Token::If => self.parse_if(),
            Token::Lambda(_) => self.parse_lambda(),
            Token::Unknown(_) => Err(Error::Tokenize),
        }
    }

    /// Parses a unary operator and its operand. Gives `Error::Parse` where
    /// the current token is no unary operator.
    pub fn parse_unary(&mut self) -> (r: Result<Node, Error>)
        requires
            old(self).wf(),
        ensures
            final(self).wf(),
            final(self).tokens() == old(self).tokens(),
            parse_outcome(r, final(self).position()) == (if old(self).position() < old(
                self,
            ).tokens().len() && old(self).tokens()[old(self).position()] is UnaryOperator {
                parse_at(old(self).tokens(), old(self).position())
            } else {
                Err(Error::Parse)
            }),
            r is Err ==> final(self).position() == old(self).position(),
        decreases old(self).tokens().len() - old(self).position(), 0int,
    {
        if self.position >= self.tokens.len() {
            return Err(Error::Parse);
        }
        let symbol = match &self.tokens[self.position] {
            Token::UnaryOperator(symbol) => symbol.clone(),
            _ => {
                return Err(Error::Parse);
            },
        };
        let begin = self.position;
        self.position += 1;
        let operand = match self.parse_node() {
            Ok(node) => node,
            Err(e) => {
                self.position = begin;
                return Err(e);
            },
        };
        Ok(Node::UnaryOperator(symbol, Box::new(operand)))
    }

    /// Parses a binary operator and its two operands. Gives `Error::Parse`
    /// where the current token is no binary operator.
    pub fn parse_binary(&mut self) -> (r: Result<Node, Error>)
        requires
            old(self).wf(),
        ensures
            final(self).wf(),
            final(self).tokens() == old(self).tokens(),
            parse_outcome(r, final(self).position()) == (if old(self).position() < old(
                self,
            ).tokens().len() && old(self).tokens()[old(self).position()] is BinaryOperator {
                parse_at(old(self).tokens(), old(self).position())
            } else {
                Err(Error::Parse)
            }),
            r is Err ==> final(self).position() == old(self).position(),
        decreases old(self).tokens().len() - old(self).position(), 0int,
    {
        if self.position >= self.tokens.len() {
            return Err(Error::Parse);
        }
        let symbol = match &self.tokens[self.position] {
            Token::BinaryOperator(symbol) => symbol.clone(),
            _ => {
                return Err(Error::Parse);
            },
        };
        let ghost start = self.position();
        let begin = self.position;
        self.position += 1;
        proof {
            lemma_parse_advances(self.tokens(), start + 1);
        }
        let left = match self.parse_node() {
            Ok(node) => node,
            Err(e) => {
                self.position = begin;
                return Err(e);
            },
        };
        let right = match self.parse_node() {
            Ok(node) => node,
            Err(e) => {
                self.position = begin;
                return Err(e);
            },
        };
        Ok(Node::BinaryOperator(symbol, Box::new(left), Box::new(right)))
    }

    /// Parses a conditional and its three parts. Gives `Error::Parse` where
    /// the current token is not the conditional.
    pub fn parse_if(&mut self) -> (r: Result<Node, Error>)
        requires
            old(self).wf(),
        ensures
            final(self).wf(),
            final(self).tokens() == old(self).tokens(),
            parse_outcome(r, final(self).position()) == (if old(self).position() < old(
                self,
            ).tokens().len() && old(self).tokens()[old(self).position()] is If {
                parse_at(old(self).tokens(), old(self).position())
            } else {
                Err(Error::Parse)
            }),
            r is Err ==> final(self).position() == old(self).position(),
        decreases old(self).tokens().len() - old(self).position(), 0int,
    {
        if self.position >= self.tokens.len() {
            return Err(Error::Parse);
        }
        match &self.tokens[self.position] {
            Token::If => {},
            _ => {
                return Err(Error::Parse);
            },
        }
        let ghost start = self.position();
        let begin = self.position;
        self.position += 1;
        proof {
            lemma_parse_advances(self.tokens(), start + 1);
        }
        let condition = match self.parse_node() {
            Ok(node) => node,
            Err(e) => {
                self.position = begin;
                return Err(e);
            },
        };
        proof {
            lemma_parse_advances(self.tokens(), self.position());
        }
        let first = match self.parse_node() {
            Ok(node) => node,
            Err(e) => {
                self.position = begin;
                return Err(e);
            },
        };
        let second = match self.parse_node() {
            Ok(node) => node,
            Err(e) => {
                self.position = begin;
                return Err(e);
            },
        };
        Ok(Node::If(Box::new(condition), Box::new(first), Box::new(second)))
    }

    /// Parses a lambda and its body. Gives `Error::Parse` where the current
    /// token is no lambda.
    pub fn parse_lambda(&mut self) -> (r: Result<Node, Error>)
        requires
            old(self).wf(),
        ensures
            final(self).wf(),
            final(self).tokens() == old(self).tokens(),
            parse_outcome(r, final(self).position()) == (if old(self).position() < old(
                self,
            ).tokens().len() && old(self).tokens()[old(self).position()] is Lambda {
                parse_at(old(self).tokens(), old(self).position())
            } else {
                Err(Error::Parse)
            }),
            r is Err ==> final(self).position() == old(self).position(),
        decreases old(self).tokens().len() - old(self).position(), 0int,
    {
        if self.position >= self.tokens.len() {
            return Err(Error::Parse);
        }
        let binder = match &self.tokens[self.position] {
            Token::Lambda(binder) => binder.clone(),
            _ => {
                return Err(Error::Parse);
            },
        };
        let begin = self.position;
        self.position += 1;
        let body = match self.parse_node() {
            Ok(node) => node,
            Err(e) => {
                self.position = begin;
                return Err(e);
            },
        };
        Ok(Node::Lambda(binder, Box::new(body)))
    }
}

/// Parsing the tokens of a term gives the term back, whatever stands before
/// and after them, and stops behind the last of them.
pub proof fn lemma_parse_inverts_tokens(t: Term, before: Seq<TokenView>, after: Seq<TokenView>)
    ensures
        parse_at(before + term_tokens(t) + after, before.len() as int) == Ok::<
            (Term, int),
            Error,
        >((t, (before.len() + term_tokens(t).len()) as int)),
    decreases t,
{
    let all = before + term_tokens(t) + after;
    let pos = before.len() as int;
    assert(all[pos] == term_tokens(t)[0]);
    match t {
        Term::UnaryOperator(symbol, operand) => {
            let head = before.push(TokenView::UnaryOperator(symbol));
            lemma_parse_inverts_tokens(*operand, head, after);
            assert(head + term_tokens(*operand) + after =~= all);
        },
        Term::Lambda(binder, body) => {
            let head = before.push(TokenView::Lambda(binder));
            lemma_parse_inverts_tokens(*body, head, after);
            assert(head + term_tokens(*body) + after =~= all);
        },
        Term::BinaryOperator(symbol, left, right) => {
            let head = before.push(TokenView::BinaryOperator(symbol));
            lemma_parse_inverts_tokens(*left, head, term_tokens(*right) + after);
            assert(head + term_tokens(*left) + (term_tokens(*right) + after) =~= all);
            let mid = head + term_tokens(*left);
            lemma_parse_inverts_tokens(*right, mid, after);
            assert(mid + term_tokens(*right) + after =~= all);
        },
        Term::If(condition, first, second) => {
            let head = before.push(TokenView::If);
            lemma_parse_inverts_tokens(
                *condition,
                head,
                term_tokens(*first) + term_tokens(*second) + after,
            );
            assert(head + term_tokens(*condition) + (term_tokens(*first) + term_tokens(*second)
                + after) =~= all);
            let mid = head + term_tokens(*condition);
            lemma_parse_inverts_tokens(*first, mid, term_tokens(*second) + after);
            assert(mid + term_tokens(*first) + (term_tokens(*second) + after) =~= all);
            let late = mid + term_tokens(*first);
            lemma_parse_inverts_tokens(*second, late, after);
            assert(late + term_tokens(*second) + after =~= all);
        },
        _ => {},
    }
}

/// Whether a term can be written on the wire: no number in it is negative,
/// its strings are of the text alphabet, its operators are one symbol of
/// the wire alphabet each.
pub open spec fn is_wire_term(t: Term) -> bool {
    forall|i: int| 0 <= i < term_tokens(t).len() ==> is_wire_token(#[trigger] term_tokens(t)[i])
}

/// The wire text is faithful: a term that can be written on the wire comes
/// back from its text through the tokenizer and the parser.
pub proof fn lemma_wire_text_is_faithful(t: Term)
    requires
        is_wire_term(t),
    ensures
        term_text(t) is Ok,
        tokens_of(term_text(t)->Ok_0) == Ok::<Seq<TokenView>, Error>(term_tokens(t)),
        parse_at(term_tokens(t), 0) == Ok::<(Term, int), Error>((t, term_tokens(t).len() as int)),
{
    lemma_tokens_round_trip(term_tokens(t));
    lemma_parse_inverts_tokens(t, Seq::empty(), Seq::empty());
    assert(Seq::<TokenView>::empty() + term_tokens(t) + Seq::<TokenView>::empty() =~= term_tokens(
        t,
    ));
}

} // verus!
