//! The terms of the language, as mathematical values.
//!
//! A [`Term`] is what a syntax tree stands for: integers are unbounded,
//! strings are sequences of characters. The contracts of the parser and of
//! the evaluator are stated over terms.

use crate::alphabet::{digits_of, digits_value, is_text, text_of_wire, wire_of_text};
use crate::error::Error;
use crate::integer::{trunc_div, trunc_rem};
use crate::tokenizer::TokenView;
use vstd::prelude::*;

verus! {

/// A term of the language.
pub enum Term {
    /// An integer literal.
    Integer(int),
    /// A string literal.
    String(Seq<char>),
    /// A boolean literal.
    Boolean(bool),
    /// The variable with this number.
    Variable(int),
    /// A unary operator, by its symbol, and its operand.
    UnaryOperator(Seq<char>, Box<Term>),
    /// A binary operator, by its symbol, and its two operands.
    BinaryOperator(Seq<char>, Box<Term>, Box<Term>),
    /// The conditional: condition, first branch, second branch.
    If(Box<Term>, Box<Term>, Box<Term>),
    /// An abstraction: the number of the variable it binds, and its body.
    Lambda(int, Box<Term>),
}

/// The tokens of a term in the order in which a program writes them: each
/// operator before its operands.
pub open spec fn term_tokens(t: Term) -> Seq<TokenView>
    decreases t,
{
    match t {
        Term::Integer(value) => seq![TokenView::Integer(value)],
        Term::String(value) => seq![TokenView::String(value)],
        Term::Boolean(value) => seq![TokenView::Boolean(value)],
        Term::Variable(binder) => seq![TokenView::Variable(binder)],
        Term::UnaryOperator(symbol, operand) => seq![TokenView::UnaryOperator(symbol)]
            + term_tokens(*operand),
        Term::BinaryOperator(symbol, left, right) => seq![TokenView::BinaryOperator(symbol)]
            + term_tokens(*left) + term_tokens(*right),
        Term::If(condition, first, second) => seq![TokenView::If] + term_tokens(*condition)
            + term_tokens(*first) + term_tokens(*second),
        Term::Lambda(binder, body) => seq![TokenView::Lambda(binder)] + term_tokens(*body),
    }
}

/// A value: a term that reduction leaves as it is.
pub open spec fn is_value(t: Term) -> bool {
    t is Integer || t is String || t is Boolean || t is Lambda
}

/// The operator symbol made of the one character `c`.
pub open spec fn symbol(c: char) -> Seq<char> {
    seq![c]
}

/// `t` with `argument` in place of the free occurrences of the variable
/// `binder`. A lambda that binds the same number shadows it: nothing inside
/// such a lambda is replaced. The argument goes in as it is, and nothing in
/// it is renamed.
pub open spec fn substitute(t: Term, binder: int, argument: Term) -> Term
    decreases t,
{
    match t {
        Term::Integer(_) => t,
        Term::String(_) => t,
        Term::Boolean(_) => t,
        Term::Variable(id) => if id == binder {
            argument
        } else {
            t
        },
        Term::UnaryOperator(op, operand) => Term::UnaryOperator(
            op,
            Box::new(substitute(*operand, binder, argument)),
        ),
        Term::BinaryOperator(op, left, right) => Term::BinaryOperator(
            op,
            Box::new(substitute(*left, binder, argument)),
            Box::new(substitute(*right, binder, argument)),
        ),
        Term::If(condition, first, second) => Term::If(
            Box::new(substitute(*condition, binder, argument)),
            Box::new(substitute(*first, binder, argument)),
            Box::new(substitute(*second, binder, argument)),
        ),
        Term::Lambda(id, body) => if id == binder {
            t
        } else {
            Term::Lambda(id, Box::new(substitute(*body, binder, argument)))
        },
    }
}

/// The result of the unary operator `op` on the value `operand`.
///
/// `-` negates an integer, `!` negates a boolean, `#` reads a string as the
/// base-94 numeral that stands for it on the wire, `$` writes an integer
/// that is not negative as the text of its numeral. Anything else is
/// `Error::Type`, but for a string under `#` that holds a character outside
/// the text alphabet, which is `Error::Alphabet`.
pub open spec fn apply_unary(op: Seq<char>, operand: Term) -> Result<Term, Error> {
    if op == symbol('-') {
        match operand {
            Term::Integer(n) => Ok(Term::Integer(-n)),
            _ => Err(Error::Type),
        }
    } else if op == symbol('!') {
        match operand {
            Term::Boolean(b) => Ok(Term::Boolean(!b)),
            _ => Err(Error::Type),
        }
    } else if op == symbol('#') {
        match operand {
            Term::String(s) => if is_text(s) {
                Ok(Term::Integer(digits_value(wire_of_text(s)) as int))
            } else {
                Err(Error::Alphabet)
            },
            _ => Err(Error::Type),
        }
    } else if op == symbol('$') {
        match operand {
            Term::Integer(n) => if n >= 0 {
                Ok(Term::String(text_of_wire(digits_of(n as nat))))
            } else {
                Err(Error::Type)
            },
            _ => Err(Error::Type),
        }
    } else {
        Err(Error::Type)
    }
}

/// How many characters `T` takes and `D` drops for the count `n` on a string
/// of length `len`: `n` itself, but no more than there are.
pub open spec fn clamp(n: int, len: nat) -> int
    recommends
        n >= 0,
{
    if n < len {
        n
    } else {
        len as int
    }
}

/// The result of the binary operator `op`, other than application, on the
/// values `left` and `right`.
///
/// On two integers: `+ - *`, `/` (rounded toward zero), `%` (with the sign
/// of the left operand), `< > =`; `/` and `%` by zero are
/// `Error::Division`. On two strings: `=` and `.` (concatenation). On two
/// booleans: `=`, `|` and `&`. On an integer `n` that is not negative and a
/// string: `T`, its first `n` characters, and `D`, what is left without
/// them. Anything else is `Error::Type`.
pub open spec fn apply_binary(op: Seq<char>, left: Term, right: Term) -> Result<Term, Error> {
    match (left, right) {
        (Term::Integer(x), Term::Integer(y)) => {
            if op == symbol('+') {
                Ok(Term::Integer(x + y))
            } else if op == symbol('-') {
                Ok(Term::Integer(x - y))
            } else if op == symbol('*') {
                Ok(Term::Integer(x * y))
            } else if op == symbol('/') {
                if y == 0 {
                    Err(Error::Division)
                } else {
                    Ok(Term::Integer(trunc_div(x, y)))
                }
            } else if op == symbol('%') {
                if y == 0 {
                    Err(Error::Division)
                } else {
                    Ok(Term::Integer(trunc_rem(x, y)))
                }
            } else if op == symbol('<') {
                Ok(Term::Boolean(x < y))
            } else if op == symbol('>') {
                Ok(Term::Boolean(x > y))
            } else if op == symbol('=') {
                Ok(Term::Boolean(x == y))
            } else {
                Err(Error::Type)
            }
        },
        (Term::String(x), Term::String(y)) => {
            if op == symbol('=') {
                Ok(Term::Boolean(x == y))
            } else if op == symbol('.') {
                Ok(Term::String(x + y))
            } else {
                Err(Error::Type)
            }
        },
        (Term::Boolean(x), Term::Boolean(y)) => {
            if op == symbol('=') {
                Ok(Term::Boolean(x == y))
            } else if op == symbol('|') {
                Ok(Term::Boolean(x || y))
            } else if op == symbol('&') {
                Ok(Term::Boolean(x && y))
            } else {
                Err(Error::Type)
            }
        },
        (Term::Integer(n), Term::String(s)) => {
            if n < 0 {
                Err(Error::Type)
            } else if op == symbol('T') {
                Ok(Term::String(s.take(clamp(n, s.len()))))
            } else if op == symbol('D') {
                Ok(Term::String(s.skip(clamp(n, s.len()))))
            } else {
                Err(Error::Type)
            }
        },
        _ => Err(Error::Type),
    }
}

/// The result of a unary operator whose operand reduced to `operand`.
pub open spec fn unary_outcome(op: Seq<char>, operand: Result<Term, Error>) -> Result<Term, Error> {
    match operand {
        Ok(value) => apply_unary(op, value),
        Err(e) => Err(e),
    }
}

/// The result of a binary operator, other than application, whose operands
/// reduced to `left` and `right`. An error of the left operand comes first.
pub open spec fn binary_outcome(
    op: Seq<char>,
    left: Result<Term, Error>,
    right: Result<Term, Error>,
) -> Result<Term, Error> {
    match left {
        Ok(a) => match right {
            Ok(b) => apply_binary(op, a, b),
            Err(e) => Err(e),
        },
        Err(e) => Err(e),
    }
}

/// The value of `t`, reached with nested reductions at most `fuel` deep.
///
/// Literals and lambdas are values and stand for themselves. A variable
/// that nothing has replaced has no value: `Error::Type`. An operator first
/// reduces its operands, the left one first, and then applies. Application,
/// the binary `$`, reduces its left operand to a lambda, puts the right
/// operand, as it is, in place of the bound variable in the body, and goes
/// on with the body. A conditional reduces its condition and goes on with
/// the branch chosen; the other branch is never looked at.
///
/// Where `fuel` does not suffice the outcome is `Error::Exhausted`; every
/// other outcome stays the same with more fuel ([`lemma_eval_monotone`]).
pub open spec fn eval(t: Term, fuel: nat) -> Result<Term, Error>
    decreases fuel,
{
    if is_value(t) {
        Ok(t)
    } else if t is Variable {
        Err(Error::Type)
    } else if fuel == 0 {
        Err(Error::Exhausted)
    } else {
        let less = (fuel - 1) as nat;
        match t {
            Term::UnaryOperator(op, operand) => unary_outcome(op, eval(*operand, less)),
            Term::BinaryOperator(op, left, right) => if op == symbol('$') {
                match eval(*left, less) {
                    Ok(Term::Lambda(binder, body)) => eval(
                        substitute(*body, binder, *right),
                        less,
                    ),
                    Ok(_) => Err(Error::Type),
                    Err(e) => Err(e),
                }
            } else {
                match eval(*left, less) {
                    Ok(a) => binary_outcome(op, Ok(a), eval(*right, less)),
                    Err(e) => Err(e),
                }
            },
            Term::If(condition, first, second) => match eval(*condition, less) {
                Ok(Term::Boolean(true)) => eval(*first, less),
                Ok(Term::Boolean(false)) => eval(*second, less),
                Ok(_) => Err(Error::Type),
                Err(e) => Err(e),
            },
            _ => Ok(t),
        }
    }
}

/// An outcome other than `Error::Exhausted` that `t` has with some fuel.
pub open spec fn settles(t: Term, outcome: Result<Term, Error>) -> bool {
    outcome != Err::<Term, Error>(Error::Exhausted) && exists|fuel: nat| eval(t, fuel) == outcome
}

/// An outcome that does not depend on the fuel given stays with more fuel.
pub proof fn lemma_eval_monotone(t: Term, fuel: nat, more: nat)
    requires
        fuel <= more,
        eval(t, fuel) != Err::<Term, Error>(Error::Exhausted),
    ensures
        eval(t, more) == eval(t, fuel),
    decreases fuel,
{
    if is_value(t) || t is Variable || fuel == 0 {
    } else {
        let less = (fuel - 1) as nat;
        let most = (more - 1) as nat;
        match t {
            Term::UnaryOperator(op, operand) => {
                lemma_operators_never_exhaust();
                lemma_eval_monotone(*operand, less, most);
            },
            Term::BinaryOperator(op, left, right) => {
                lemma_operators_never_exhaust();
                lemma_eval_monotone(*left, less, most);
                if op == symbol('$') {
                    match eval(*left, less) {
                        Ok(Term::Lambda(binder, body)) => {
                            lemma_eval_monotone(substitute(*body, binder, *right), less, most);
                        },
                        _ => {},
                    }
                } else {
                    if eval(*left, less) is Ok {
                        lemma_eval_monotone(*right, less, most);
                    }
                }
            },
            Term::If(condition, first, second) => {
                lemma_eval_monotone(*condition, less, most);
                match eval(*condition, less) {
                    Ok(Term::Boolean(true)) => {
                        lemma_eval_monotone(*first, less, most);
                    },
                    Ok(Term::Boolean(false)) => {
                        lemma_eval_monotone(*second, less, most);
                    },
                    _ => {},
                }
            },
            _ => {},
        }
    }
}

/// Applying an operator to values never gives `Error::Exhausted`, and what
/// it gives on success is a literal.
pub proof fn lemma_operators_never_exhaust()
    ensures
        forall|op: Seq<char>, v: Term| #[trigger]
            apply_unary(op, v) != Err::<Term, Error>(Error::Exhausted),
        forall|op: Seq<char>, a: Term, b: Term| #[trigger]
            apply_binary(op, a, b) != Err::<Term, Error>(Error::Exhausted),
        forall|op: Seq<char>, v: Term| #[trigger]
            apply_unary(op, v) is Ok ==> is_value(apply_unary(op, v)->Ok_0),
        forall|op: Seq<char>, a: Term, b: Term| #[trigger]
            apply_binary(op, a, b) is Ok ==> is_value(apply_binary(op, a, b)->Ok_0),
{
}

/// Reduction is a function: a term has at most one outcome other than
/// `Error::Exhausted`, whatever the fuel. This is what allows a result to be
/// remembered and used again for an equal term.
pub proof fn lemma_outcome_is_unique(t: Term, a: Result<Term, Error>, b: Result<Term, Error>)
    requires
        settles(t, a),
        settles(t, b),
    ensures
        a == b,
{
    let f = choose|fuel: nat| eval(t, fuel) == a;
    let g = choose|fuel: nat| eval(t, fuel) == b;
    if f <= g {
        lemma_eval_monotone(t, f, g);
    } else {
        lemma_eval_monotone(t, g, f);
    }
}

/// What reduction gives on success is a value.
pub proof fn lemma_eval_gives_value(t: Term, fuel: nat)
    requires
        eval(t, fuel) is Ok,
    ensures
        is_value(eval(t, fuel)->Ok_0),
    decreases fuel,
{
    if is_value(t) || t is Variable || fuel == 0 {
    } else {
        let less = (fuel - 1) as nat;
        lemma_operators_never_exhaust();
        match t {
            Term::BinaryOperator(op, left, right) => {
                if op == symbol('$') {
                    match eval(*left, less) {
                        Ok(Term::Lambda(binder, body)) => {
                            lemma_eval_gives_value(substitute(*body, binder, *right), less);
                        },
                        _ => {},
                    }
                }
            },
            Term::If(condition, first, second) => {
                match eval(*condition, less) {
                    Ok(Term::Boolean(true)) => {
                        lemma_eval_gives_value(*first, less);
                    },
                    Ok(Term::Boolean(false)) => {
                        lemma_eval_gives_value(*second, less);
                    },
                    _ => {},
                }
            },
            _ => {},
        }
    }
}

/// Whether `t` is an application: the binary operator `$`.
pub open spec fn is_application(t: Term) -> bool {
    t is BinaryOperator && t->BinaryOperator_0 == symbol('$')
}

/// Whether `t` is an application whose left operand is a lambda as it
/// stands.
pub open spec fn is_redex(t: Term) -> bool {
    match t {
        Term::BinaryOperator(op, left, _) => op == symbol('$') && *left is Lambda,
        _ => false,
    }
}

/// One step of the application `t`: the body of the lambda on its left with
/// its right operand in place of the bound variable.
pub open spec fn beta_step(t: Term) -> Term
    recommends
        is_redex(t),
{
    match t {
        Term::BinaryOperator(_, left, right) => match *left {
            Term::Lambda(binder, body) => substitute(*body, binder, *right),
            _ => t,
        },
        _ => t,
    }
}

/// What an evaluator that may remember results owes for `t` when it has
/// `fuel` at hand. Where the fuel suffices for reduction from scratch, the
/// outcome is the one that reduction gives. Where it does not, the
/// evaluator may still know better: any outcome other than
/// `Error::Exhausted` is the one that reduction gives with more fuel.
pub open spec fn agrees(t: Term, fuel: nat, outcome: Result<Term, Error>) -> bool {
    &&& outcome != Err::<Term, Error>(Error::Exhausted) ==> settles(t, outcome)
    &&& eval(t, fuel) != Err::<Term, Error>(Error::Exhausted) ==> outcome == eval(t, fuel)
}

/// An outcome that reduction gives with some fuel is right with any fuel.
pub proof fn lemma_agrees_settled(t: Term, fuel: nat, outcome: Result<Term, Error>)
    requires
        settles(t, outcome),
    ensures
        agrees(t, fuel, outcome),
{
    if eval(t, fuel) != Err::<Term, Error>(Error::Exhausted) {
        assert(settles(t, eval(t, fuel)));
        lemma_outcome_is_unique(t, outcome, eval(t, fuel));
    }
}

/// Without fuel, a term that is neither a value nor a variable is owed
/// nothing but `Error::Exhausted`.
pub proof fn lemma_agrees_exhausted(t: Term)
    requires
        !is_value(t),
        !(t is Variable),
    ensures
        agrees(t, 0, Err(Error::Exhausted)),
{
}

/// A unary operator is right where its operand is.
pub proof fn lemma_agrees_unary(
    op: Seq<char>,
    operand: Term,
    fuel: nat,
    reduced: Result<Term, Error>,
)
    requires
        fuel > 0,
        agrees(operand, (fuel - 1) as nat, reduced),
    ensures
        agrees(Term::UnaryOperator(op, Box::new(operand)), fuel, unary_outcome(op, reduced)),
{
    let t = Term::UnaryOperator(op, Box::new(operand));
    let outcome = unary_outcome(op, reduced);
    lemma_operators_never_exhaust();
    if outcome != Err::<Term, Error>(Error::Exhausted) {
        let f = choose|f: nat| eval(operand, f) == reduced;
        assert(eval(t, f + 1) == outcome);
    }
}

/// A binary operator other than application is right where its operands
/// are. The right operand counts only where the left one has a value.
pub proof fn lemma_agrees_binary(
    op: Seq<char>,
    left: Term,
    right: Term,
    fuel: nat,
    a: Result<Term, Error>,
    b: Result<Term, Error>,
)
    requires
        fuel > 0,
        op != symbol('$'),
        agrees(left, (fuel - 1) as nat, a),
        a is Ok ==> agrees(right, (fuel - 1) as nat, b),
    ensures
        agrees(
            Term::BinaryOperator(op, Box::new(left), Box::new(right)),
            fuel,
            binary_outcome(op, a, b),
        ),
{
    let t = Term::BinaryOperator(op, Box::new(left), Box::new(right));
    let outcome = binary_outcome(op, a, b);
    lemma_operators_never_exhaust();
    if outcome != Err::<Term, Error>(Error::Exhausted) {
        let f = choose|f: nat| eval(left, f) == a;
        if a is Ok {
            let g = choose|g: nat| eval(right, g) == b;
            let most = if f <= g {
                g
            } else {
                f
            };
            lemma_eval_monotone(left, f, most);
            lemma_eval_monotone(right, g, most);
            assert(eval(t, most + 1) == outcome);
        } else {
            assert(eval(t, f + 1) == outcome);
        }
    }
}

/// An application whose left operand reduced to a lambda is right where the
/// body, with the right operand in place of the bound variable, is.
pub proof fn lemma_agrees_application(
    left: Term,
    right: Term,
    fuel: nat,
    binder: int,
    body: Term,
    outcome: Result<Term, Error>,
)
    requires
        fuel > 0,
        agrees(left, (fuel - 1) as nat, Ok(Term::Lambda(binder, Box::new(body)))),
        agrees(substitute(body, binder, right), (fuel - 1) as nat, outcome),
    ensures
        agrees(
            Term::BinaryOperator(symbol('$'), Box::new(left), Box::new(right)),
            fuel,
            outcome,
        ),
{
    let t = Term::BinaryOperator(symbol('$'), Box::new(left), Box::new(right));
    let function = Ok::<Term, Error>(Term::Lambda(binder, Box::new(body)));
    let next = substitute(body, binder, right);
    if outcome != Err::<Term, Error>(Error::Exhausted) {
        let f = choose|f: nat| eval(left, f) == function;
        let g = choose|g: nat| eval(next, g) == outcome;
        let most = if f <= g {
            g
        } else {
            f
        };
        lemma_eval_monotone(left, f, most);
        lemma_eval_monotone(next, g, most);
        assert(eval(t, most + 1) == outcome);
    }
}

/// An application whose left operand did not reduce to a lambda fails as
/// the left operand did, or with `Error::Type` where that gave another
/// value.
pub proof fn lemma_agrees_no_function(
    left: Term,
    right: Term,
    fuel: nat,
    function: Result<Term, Error>,
)
    requires
        fuel > 0,
        agrees(left, (fuel - 1) as nat, function),
        !(function is Ok && function->Ok_0 is Lambda),
    ensures
        agrees(
            Term::BinaryOperator(symbol('$'), Box::new(left), Box::new(right)),
            fuel,
            match function {
                Ok(_) => Err(Error::Type),
                Err(e) => Err(e),
            },
        ),
{
    let t = Term::BinaryOperator(symbol('$'), Box::new(left), Box::new(right));
    if function != Err::<Term, Error>(Error::Exhausted) {
        let f = choose|f: nat| eval(left, f) == function;
        assert(eval(t, f + 1) == match function {
            Ok(_) => Err::<Term, Error>(Error::Type),
            Err(e) => Err(e),
        });
    }
}

/// A conditional whose condition reduced to a boolean is right where the
/// branch chosen is. Nothing is asked of the other branch.
pub proof fn lemma_agrees_branch(
    condition: Term,
    first: Term,
    second: Term,
    fuel: nat,
    choice: bool,
    outcome: Result<Term, Error>,
)
    requires
        fuel > 0,
        agrees(condition, (fuel - 1) as nat, Ok(Term::Boolean(choice))),
        agrees(
            if choice {
                first
            } else {
                second
            },
            (fuel - 1) as nat,
            outcome,
        ),
    ensures
        agrees(Term::If(Box::new(condition), Box::new(first), Box::new(second)), fuel, outcome),
{
    let t = Term::If(Box::new(condition), Box::new(first), Box::new(second));
    let chosen = if choice {
        first
    } else {
        second
    };
    if outcome != Err::<Term, Error>(Error::Exhausted) {
        let f = choose|f: nat| eval(condition, f) == Ok::<Term, Error>(Term::Boolean(choice));
        let g = choose|g: nat| eval(chosen, g) == outcome;
        let most = if f <= g {
            g
        } else {
            f
        };
        lemma_eval_monotone(condition, f, most);
        lemma_eval_monotone(chosen, g, most);
        assert(eval(t, most + 1) == outcome);
    }
}

/// A conditional whose condition did not reduce to a boolean fails as the
/// condition did, or with `Error::Type` where that gave another value.
pub proof fn lemma_agrees_no_choice(
    condition: Term,
    first: Term,
    second: Term,
    fuel: nat,
    reduced: Result<Term, Error>,
)
    requires
        fuel > 0,
        agrees(condition, (fuel - 1) as nat, reduced),
        !(reduced is Ok && reduced->Ok_0 is Boolean),
    ensures
        agrees(
            Term::If(Box::new(condition), Box::new(first), Box::new(second)),
            fuel,
            match reduced {
                Ok(_) => Err(Error::Type),
                Err(e) => Err(e),
            },
        ),
{
    let t = Term::If(Box::new(condition), Box::new(first), Box::new(second));
    if reduced != Err::<Term, Error>(Error::Exhausted) {
        let f = choose|f: nat| eval(condition, f) == reduced;
        assert(eval(t, f + 1) == match reduced {
            Ok(_) => Err::<Term, Error>(Error::Type),
            Err(e) => Err(e),
        });
    }
}

/// A value reduces to itself, whatever the fuel.
pub proof fn lemma_value_is_unchanged(t: Term, fuel: nat)
    requires
        is_value(t),
    ensures
        eval(t, fuel) == Ok::<Term, Error>(t),
{
}

/// Reducing what reduction gave changes nothing.
pub proof fn lemma_eval_is_idempotent(t: Term, fuel: nat, again: nat)
    requires
        eval(t, fuel) is Ok,
    ensures
        eval(eval(t, fuel)->Ok_0, again) == eval(t, fuel),
{
    lemma_eval_gives_value(t, fuel);
}

/// A conditional gives what the branch chosen gives. The other branch has no
/// part in it: it may be any term, also one that fails or does not end.
pub proof fn lemma_other_branch_is_never_reduced(
    condition: Term,
    first: Term,
    second: Term,
    fuel: nat,
)
    ensures
        eval(condition, fuel) == Ok::<Term, Error>(Term::Boolean(true)) ==> eval(
            Term::If(Box::new(condition), Box::new(first), Box::new(second)),
            fuel + 1,
        ) == eval(first, fuel),
        eval(condition, fuel) == Ok::<Term, Error>(Term::Boolean(false)) ==> eval(
            Term::If(Box::new(condition), Box::new(first), Box::new(second)),
            fuel + 1,
        ) == eval(second, fuel),
{
}

/// An application puts its argument into the body as it is: what it gives
/// is what the body gives with the argument in place of the bound variable,
/// whether or not the argument has a value.
pub proof fn lemma_application_is_by_name(binder: int, body: Term, argument: Term, fuel: nat)
    ensures
        eval(
            Term::BinaryOperator(
                symbol('$'),
                Box::new(Term::Lambda(binder, Box::new(body))),
                Box::new(argument),
            ),
            fuel + 1,
        ) == eval(substitute(body, binder, argument), fuel),
{
    let function = Term::Lambda(binder, Box::new(body));
    assert(eval(function, fuel) == Ok::<Term, Error>(function));
}

/// A lambda shadows an outer binder of the same number: substitution for
/// that number leaves the lambda as it is.
pub proof fn lemma_lambda_shadows(binder: int, body: Term, argument: Term)
    ensures
        substitute(Term::Lambda(binder, Box::new(body)), binder, argument) == Term::Lambda(
            binder,
            Box::new(body),
        ),
{
}

/// Where two lambdas bind the same number, a variable of that number
/// belongs to the inner one: applied to two arguments in turn, the term
/// gives what the second argument gives, and the first one is lost.
pub proof fn lemma_inner_binder_wins(binder: int, first: Term, second: Term, fuel: nat)
    ensures
        eval(
            Term::BinaryOperator(
                symbol('$'),
                Box::new(
                    Term::BinaryOperator(
                        symbol('$'),
                        Box::new(
                            Term::Lambda(
                                binder,
                                Box::new(
                                    Term::Lambda(binder, Box::new(Term::Variable(binder))),
                                ),
                            ),
                        ),
                        Box::new(first),
                    ),
                ),
                Box::new(second),
            ),
            fuel + 2,
        ) == eval(second, fuel + 1),
{
    let identity = Term::Lambda(binder, Box::new(Term::Variable(binder)));
    let outer = Term::Lambda(binder, Box::new(identity));
    let inner = Term::BinaryOperator(symbol('$'), Box::new(outer), Box::new(first));
    let whole = Term::BinaryOperator(symbol('$'), Box::new(inner), Box::new(second));
    assert(eval(outer, fuel) == Ok::<Term, Error>(outer));
    assert(eval(identity, fuel) == Ok::<Term, Error>(identity));
    assert(substitute(identity, binder, first) == identity);
    assert(eval(inner, fuel + 1) == Ok::<Term, Error>(identity));
    assert(substitute(Term::Variable(binder), binder, second) == second);
    assert(eval(whole, fuel + 2) == eval(second, fuel + 1));
}

/// An operator on two equal operands reduces them to the same outcome: what
/// it gives is what it gives on that one outcome taken twice.
pub proof fn lemma_equal_operands_share_an_outcome(op: Seq<char>, operand: Term, fuel: nat)
    requires
        op != symbol('$'),
    ensures
        eval(
            Term::BinaryOperator(op, Box::new(operand), Box::new(operand)),
            fuel + 1,
        ) == binary_outcome(op, eval(operand, fuel), eval(operand, fuel)),
{
}

/// A term that holds the same subterm twice gives what it gives for the
/// value of the subterm taken twice: where `x` alone has the value `v`, the
/// sum of `x` with itself has the value `v + v`, with one more level of
/// nesting.
pub proof fn lemma_sum_of_equal_operands(x: Term, v: int, fuel: nat)
    requires
        eval(x, fuel) == Ok::<Term, Error>(Term::Integer(v)),
    ensures
        eval(Term::BinaryOperator(symbol('+'), Box::new(x), Box::new(x)), fuel + 1) == Ok::<
            Term,
            Error,
        >(Term::Integer(v + v)),
{
    assert(symbol('+') != symbol('$')) by {
        assert(symbol('+')[0] == '+');
        assert(symbol('$')[0] == '$');
    }
}

/// What an evaluator may give for the sum of `x` with itself, once `x` alone
/// was seen to have the value `v`: the value `v + v`, whether or not the
/// second `x` was served from its memory, or `Error::Exhausted` where its
/// budget does not reach one level deeper than `x` needs.
pub proof fn lemma_shared_operand_outcome(
    x: Term,
    v: int,
    fuel: nat,
    outcome: Result<Term, Error>,
)
    requires
        settles(x, Ok(Term::Integer(v))),
        agrees(Term::BinaryOperator(symbol('+'), Box::new(x), Box::new(x)), fuel, outcome),
    ensures
        outcome == Ok::<Term, Error>(Term::Integer(v + v)) || outcome == Err::<Term, Error>(
            Error::Exhausted,
        ),
{
    let sum = Term::BinaryOperator(symbol('+'), Box::new(x), Box::new(x));
    let f = choose|f: nat| eval(x, f) == Ok::<Term, Error>(Term::Integer(v));
    lemma_sum_of_equal_operands(x, v, f);
    if outcome != Err::<Term, Error>(Error::Exhausted) {
        assert(settles(sum, Ok(Term::Integer(v + v))));
        lemma_outcome_is_unique(sum, outcome, Ok(Term::Integer(v + v)));
    }
}

} // verus!
