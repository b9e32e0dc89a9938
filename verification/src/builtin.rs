//! Terms that program-building tools put together: a fixed-point combinator
//! and a function that repeats one character.

use crate::alphabet::{is_text_char, text_index, text_position};
use crate::error::Error;
use crate::integer::Integer;
use crate::parser::Node;
use crate::term::{symbol, Term};
use vstd::prelude::*;

verus! {

/// The application of `function` to `argument`.
pub open spec fn application(function: Term, argument: Term) -> Term {
    Term::BinaryOperator(symbol('$'), Box::new(function), Box::new(argument))
}

/// The binary operator with the one-character symbol `c` on two operands.
pub open spec fn operation(c: char, left: Term, right: Term) -> Term {
    Term::BinaryOperator(symbol(c), Box::new(left), Box::new(right))
}

/// The lambda that binds `binder` in `body`.
pub open spec fn abstraction(binder: int, body: Term) -> Term {
    Term::Lambda(binder, Box::new(body))
}

/// The fixed-point combinator: `λ0. (λ1. v1 v1) (λ1. v0 (λ2. (v1 v1) v2))`.
pub open spec fn y_combinator_term() -> Term {
    abstraction(
        0,
        application(
            abstraction(1, application(Term::Variable(1), Term::Variable(1))),
            abstraction(
                1,
                application(
                    Term::Variable(0),
                    abstraction(
                        2,
                        application(
                            application(Term::Variable(1), Term::Variable(1)),
                            Term::Variable(2),
                        ),
                    ),
                ),
            ),
        ),
    )
}

/// The function that repeats a character, to be closed by a fixed-point
/// combinator: `λ0. λ1. if v1 > 94 then $(v1 % 94) . v0 (v1 - 94) else ""`.
/// Its argument holds the index of the character in the text alphabet and,
/// in steps of 94, how often to repeat it.
pub open spec fn repeat_char_term() -> Term {
    abstraction(
        0,
        abstraction(
            1,
            Term::If(
                Box::new(operation('>', Term::Variable(1), Term::Integer(94))),
                Box::new(
                    operation(
                        '.',
                        Term::UnaryOperator(
                            symbol('$'),
                            Box::new(operation('%', Term::Variable(1), Term::Integer(94))),
                        ),
                        application(
                            Term::Variable(0),
                            operation('-', Term::Variable(1), Term::Integer(94)),
                        ),
                    ),
                ),
                Box::new(Term::String(Seq::empty())),
            ),
        ),
    )
}

/// The symbol made of the one character `c`, as a string.
fn symbol_string(c: char) -> (r: String)
    ensures
        r@ == symbol(c),
{
    let mut r = String::new();
    r.push(c);
    proof {
        assert(r@ =~= symbol(c));
    }
    r
}

/// The variable with the number `binder`.
fn variable(binder: u64) -> (r: Node)
    ensures
        r@ == Term::Variable(binder as int),
{
    Node::Variable(Integer::from_u64(binder))
}

/// The binary operator with the one-character symbol `c` on two operands.
fn binary(c: char, left: Node, right: Node) -> (r: Node)
    ensures
        r@ == operation(c, left@, right@),
{
    Node::BinaryOperator(symbol_string(c), Box::new(left), Box::new(right))
}

/// The unary operator with the one-character symbol `c` on an operand.
fn unary(c: char, operand: Node) -> (r: Node)
    ensures
        r@ == Term::UnaryOperator(symbol(c), Box::new(operand@)),
{
    Node::UnaryOperator(symbol_string(c), Box::new(operand))
}

/// The conditional on a condition and two branches.
fn conditional(condition: Node, first: Node, second: Node) -> (r: Node)
    ensures
        r@ == Term::If(Box::new(condition@), Box::new(first@), Box::new(second@)),
{
    Node::If(Box::new(condition), Box::new(first), Box::new(second))
}

/// The lambda that binds `binder` in `body`.
fn lambda(binder: u64, body: Node) -> (r: Node)
    ensures
        r@ == abstraction(binder as int, body@),
{
    Node::Lambda(Integer::from_u64(binder), Box::new(body))
}

/// The fixed-point combinator.
pub fn y_combinator() -> (r: Node)
    ensures
        r@ == y_combinator_term(),
{
    lambda(
        0,
        binary(
            '$',
            lambda(1, binary('$', variable(1), variable(1))),
            lambda(
                1,
                binary(
                    '$',
                    variable(0),
                    lambda(2, binary('$', binary('$', variable(1), variable(1)), variable(2))),
                ),
            ),
        ),
    )
}

/// The function that repeats a character.
pub fn repeat_char() -> (r: Node)
    ensures
        r@ == repeat_char_term(),
{
    let base = Node::Integer(Integer::from_u64(94));
    let test = binary('>', variable(1), base.clone());
    let letter = unary('$', binary('%', variable(1), base.clone()));
    let rest = binary('$', variable(0), binary('-', variable(1), base));
    let empty = Node::String(String::new());
    proof {
        assert(empty@ == Term::String(Seq::<char>::empty()));
    }
    lambda(0, lambda(1, conditional(test, binary('.', letter, rest), empty)))
}

/// The argument that makes the function of [`repeat_char`] repeat `value`:
/// 94 times `times`, plus the index of `value` in the text alphabet. A
/// character outside the text alphabet is `Error::Alphabet`.
pub fn repeat_char_operator(value: char, times: usize) -> (r: Result<Node, Error>)
    requires
        times >= 1,
    ensures
        is_text_char(value) ==> r is Ok && r->Ok_0@ == Term::Integer(
            94 * times + text_index(value),
        ),
        !is_text_char(value) ==> r is Err && r->Err_0 == Error::Alphabet,
{
    match text_position(value) {
        Some(index) => {
            let base = Integer::from_u64(94);
            let count = Integer::from_u64(times as u64);
            let offset = Integer::from_u64(index as u64);
            Ok(Node::Integer(base.times(&count).plus(&offset)))
        },
        None => Err(Error::Alphabet),
    }
}

} // verus!
