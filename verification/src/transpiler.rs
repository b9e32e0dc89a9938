//! A transpiler from syntax trees to Lisp expressions.

use crate::chars::symbol_is;
use crate::integer::decimal;
use crate::parser::Node;
use crate::term::{symbol, Term};
use vstd::prelude::*;
use vstd::string::StringExecFns;

verus! {

/// The Lisp expression for a term.
///
/// Integers are written in decimal, strings between double quotes as they
/// are, `true` as `1` and `false` as `nil`, a variable as `v` and its number.
/// Negation is a `-` before the operand. `!` is decided on the spot: `nil`
/// for the literal `true`, `1` for any other operand. Any other unary
/// operator is its symbol, a space and the operand. Concatenation is
/// `concatenate 'string`, application is `funcall`, `=` is `==`, any other
/// binary operator is its own symbol, each in brackets before its two
/// operands. The conditional is `if`, a lambda is `lambda` with its variable
/// in brackets.
pub open spec fn lisp(t: Term) -> Seq<char>
    decreases t,
{
    match t {
        Term::Integer(value) => decimal(value),
        Term::String(value) => "\""@ + value + "\""@,
        Term::Boolean(value) => if value {
            "1"@
        } else {
            "nil"@
        },
        Term::Variable(binder) => "v"@ + decimal(binder),
        Term::UnaryOperator(op, operand) => if op == symbol('-') {
            "-"@ + lisp(*operand)
        } else if op == symbol('!') {
            if *operand == Term::Boolean(true) {
                "nil"@
            } else {
                "1"@
            }
        } else {
            op + " "@ + lisp(*operand)
        },
        Term::BinaryOperator(op, left, right) => {
            let head = if op == symbol('.') {
                "(concatenate 'string"@
            } else if op == symbol('$') {
                "(funcall"@
            } else if op == symbol('=') {
                "(=="@
            } else {
                "("@ + op
            };
            head + " "@ + lisp(*left) + " "@ + lisp(*right) + ")"@
        },
        Term::If(condition, first, second) => "(if "@ + lisp(*condition) + " "@ + lisp(*first)
            + " "@ + lisp(*second) + ")"@,
        Term::Lambda(binder, body) => "(lambda (v"@ + decimal(binder) + ") "@ + lisp(*body)
            + ")"@,
    }
}

/// A transpiler for one program.
pub struct Transpiler {
    node: Node,
}

impl Transpiler {
    /// The program.
    pub closed spec fn program(&self) -> Term {
        self.node@
    }

    /// A transpiler for `node`.
    pub fn new(node: Node) -> (r: Self)
        ensures
            r.program() == node@,
    {
        Self { node }
    }

    /// The Lisp expression for the program.
    pub fn transpile(&self) -> (r: String)
        ensures
            r@ == lisp(self.program()),
    {
        Self::transpile_node(&self.node)
    }

    /// The Lisp expression for `node`.
    pub fn transpile_node(node: &Node) -> (r: String)
        ensures
            r@ == lisp(node@),
        decreases node,
    {
        match node {
            Node::Integer(value) => value.to_decimal(),
            Node::String(value) => {
                let mut r = String::from_str("\"");
                r.append(value.as_str());
                r.append("\"");
                r
            },
            Node::Boolean(value) => {
                if *value {
                    String::from_str("1")
                } else {
                    String::from_str("nil")
                }
            },
            Node::Variable(binder) => {
                let mut r = String::from_str("v");
                r.append(binder.to_decimal().as_str());
                r
            },
            Node::UnaryOperator(op, operand) => {
                if symbol_is(op.as_str(), '-') {
                    let mut r = String::from_str("-");
                    r.append(Self::transpile_node(operand).as_str());
                    r
                } else if symbol_is(op.as_str(), '!') {
                    let truth = match &**operand {
                        Node::Boolean(value) => *value,
                        _ => false,
                    };
                    if truth {
                        String::from_str("nil")
                    } else {
                        String::from_str("1")
                    }
                } else {
                    let mut r = op.clone();
                    r.append(" ");
                    r.append(Self::transpile_node(operand).as_str());
                    r
                }
            },
            Node::BinaryOperator(op, left, right) => {
                let mut r = if symbol_is(op.as_str(), '.') {
                    String::from_str("(concatenate 'string")
                } else if symbol_is(op.as_str(), '$') {
                    String::from_str("(funcall")
                } else if symbol_is(op.as_str(), '=') {
                    String::from_str("(==")
                } else {
                    let mut head = String::from_str("(");
                    head.append(op.as_str());
                    head
                };
                r.append(" ");
                r.append(Self::transpile_node(left).as_str());
                r.append(" ");
                r.append(Self::transpile_node(right).as_str());
                r.append(")");
                r
            },
            Node::If(condition, first, second) => {
                let mut r = String::from_str("(if ");
                r.append(Self::transpile_node(condition).as_str());
                r.append(" ");
                r.append(Self::transpile_node(first).as_str());
                r.append(" ");
                r.append(Self::transpile_node(second).as_str());
                r.append(")");
                r
            },
            Node::Lambda(binder, body) => {
                let mut r = String::from_str("(lambda (v");
                r.append(binder.to_decimal().as_str());
                r.append(") ");
                r.append(Self::transpile_node(body).as_str());
                r.append(")");
                r
            },
        }
    }
}

} // verus!
