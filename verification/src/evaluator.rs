//! The evaluator: call-by-name reduction of a syntax tree to a value.
//!
//! Operators reduce their operands before they apply. Application and the
//! conditional are lazy: an argument goes into the body of the lambda as it
//! is, and only the branch that the condition chooses is reduced. Chains of
//! applications are reduced one step at a time in a loop. Results are
//! remembered by the term they belong to, so that a term met again is not
//! reduced again.
//!
//! Reduction need not end. The evaluator therefore counts how deep its
//! reductions are nested, and gives `Error::Exhausted` at a limit that it was
//! made with.

use crate::alphabet::{
    digits_from_number, lemma_integer_round_trip, lemma_wire_round_trip, number_from_digits,
    text_from_wire, wire_from_text,
};
use crate::cache::Cache;
use crate::chars::{chars_of, string_of, symbol_is};
use crate::error::Error;
use crate::integer::Integer;
use crate::parser::Node;
use crate::term::{
    agrees, apply_binary, apply_unary, beta_step, eval, is_application, is_redex, is_value,
    lemma_agrees_application, lemma_agrees_binary, lemma_agrees_branch, lemma_agrees_exhausted,
    lemma_agrees_no_choice, lemma_agrees_no_function, lemma_agrees_settled, lemma_agrees_unary,
    lemma_eval_gives_value, lemma_outcome_is_unique, substitute, Term,
};
use vstd::pervasive::unreached;
use vstd::prelude::*;
use vstd::slice::slice_subrange;

verus! {

/// How deep reductions may be nested where no other limit is asked for.
pub const DEFAULT_LIMIT: usize = 1024;

/// What the outcome of a reduction stands for.
pub open spec fn node_outcome(r: Result<Node, Error>) -> Result<Term, Error> {
    match r {
        Ok(node) => Ok(node@),
        Err(e) => Err(e),
    }
}

/// Applies a unary operator to an operand that is a value.
pub fn apply_unary_operator(operator: &str, operand: &Node) -> (r: Result<Node, Error>)
    ensures
        node_outcome(r) == apply_unary(operator@, operand@),
{
    if symbol_is(operator, '-') {
        match operand {
            Node::Integer(value) => Ok(Node::Integer(value.negated())),
            _ => Err(Error::Type),
        }
    } else if symbol_is(operator, '!') {
        match operand {
            Node::Boolean(value) => Ok(Node::Boolean(!*value)),
            _ => Err(Error::Type),
        }
    } else if symbol_is(operator, '#') {
        match operand {
            Node::String(value) => {
                let text = chars_of(value.as_str());
                match wire_from_text(text.as_slice()) {
                    Ok(wire) => {
                        proof {
                            lemma_wire_round_trip(text@);
                        }
                        match number_from_digits(wire.as_slice()) {
                            Ok(number) => Ok(Node::Integer(number)),
                            Err(e) => Err(e),
                        }
                    },
                    Err(e) => Err(e),
                }
            },
            _ => Err(Error::Type),
        }
    } else if symbol_is(operator, '$') {
        match operand {
            Node::Integer(value) => {
                if value.is_negative() {
                    Err(Error::Type)
                } else {
                    let digits = digits_from_number(value);
                    proof {
                        lemma_integer_round_trip(value@ as nat);
                    }
                    match text_from_wire(digits.as_slice()) {
                        Ok(text) => Ok(Node::String(string_of(text.as_slice()))),
                        Err(e) => Err(e),
                    }
                }
            },
            _ => Err(Error::Type),
        }
    } else {
        Err(Error::Type)
    }
}

/// Applies a binary operator other than application to two operands that
/// are values.
pub fn apply_binary_operator(operator: &str, left: &Node, right: &Node) -> (r: Result<Node, Error>)
    ensures
        node_outcome(r) == apply_binary(operator@, left@, right@),
{
    match (left, right) {
        (Node::Integer(x), Node::Integer(y)) => {
            if symbol_is(operator, '+') {
                Ok(Node::Integer(x.plus(y)))
            } else if symbol_is(operator, '-') {
                Ok(Node::Integer(x.minus(y)))
            } else if symbol_is(operator, '*') {
                Ok(Node::Integer(x.times(y)))
            } else if symbol_is(operator, '/') {
                match x.quotient(y) {
                    Ok(q) => Ok(Node::Integer(q)),
                    Err(e) => Err(e),
                }
            } else if symbol_is(operator, '%') {
                match x.remainder(y) {
                    Ok(q) => Ok(Node::Integer(q)),
                    Err(e) => Err(e),
                }
            } else if symbol_is(operator, '<') {
                Ok(Node::Boolean(x.less_than(y)))
            } else if symbol_is(operator, '>') {
                Ok(Node::Boolean(y.less_than(x)))
            } else if symbol_is(operator, '=') {
                Ok(Node::Boolean(x.equals(y)))
            } else {
                Err(Error::Type)
            }
        },
        (Node::String(x), Node::String(y)) => {
            if symbol_is(operator, '=') {
                Ok(Node::Boolean(*x == *y))
            } else if symbol_is(operator, '.') {
                let mut joined = chars_of(x.as_str());
                let mut tail = chars_of(y.as_str());
                joined.append(&mut tail);
                Ok(Node::String(string_of(joined.as_slice())))
            } else {
                Err(Error::Type)
            }
        },
        (Node::Boolean(x), Node::Boolean(y)) => {
            if symbol_is(operator, '=') {
                Ok(Node::Boolean(*x == *y))
            } else if symbol_is(operator, '|') {
                Ok(Node::Boolean(*x || *y))
            } else if symbol_is(operator, '&') {
                Ok(Node::Boolean(*x && *y))
            } else {
                Err(Error::Type)
            }
        },
        (Node::Integer(n), Node::String(s)) => {
            if n.is_negative() {
                Err(Error::Type)
            } else {
                let text = chars_of(s.as_str());
                let count = match n.to_usize() {
                    Some(k) => if k < text.len() {
                        k
                    } else {
                        text.len()
                    },
                    None => text.len(),
                };
                if symbol_is(operator, 'T') {
                    Ok(Node::String(string_of(slice_subrange(text.as_slice(), 0, count))))
                } else if symbol_is(operator, 'D') {
                    Ok(
                        Node::String(
                            string_of(slice_subrange(text.as_slice(), count, text.len())),
                        ),
                    )
                } else {
                    Err(Error::Type)
                }
            }
        },
        _ => Err(Error::Type),
    }
}

/// Whether `node` is an application.
pub fn node_is_application(node: &Node) -> (r: bool)
    ensures
        r == is_application(node@),
{
    match node {
        Node::BinaryOperator(operator, _, _) => symbol_is(operator.as_str(), '$'),
        _ => false,
    }
}

/// An evaluator for one program.
pub struct Evaluator {
    node: Node,
    cache: Cache,
    depth: usize,
    limit: usize,
}

impl Evaluator {
    /// The program.
    pub closed spec fn program(&self) -> Term {
        self.node@
    }

    /// How deep reductions may be nested at most.
    pub closed spec fn limit(&self) -> nat {
        self.limit as nat
    }

    /// How deep reductions may still be nested.
    pub closed spec fn fuel(&self) -> nat {
        (self.limit - self.depth) as nat
    }

    /// What the evaluator remembers.
    pub closed spec fn memory(&self) -> Cache {
        self.cache
    }

    /// Every remembered result is the value that reduction gives for its
    /// term, and the depth is within the limit.
    pub closed spec fn wf(&self) -> bool {
        &&& self.depth <= self.limit
        &&& self.cache.wf()
    }

    /// An evaluator for `node` with the default limit and nothing
    /// remembered.
    pub fn new(node: Node) -> (r: Evaluator)
        ensures
            r.wf(),
            r.program() == node@,
            r.limit() == DEFAULT_LIMIT,
            r.fuel() == DEFAULT_LIMIT,
            forall|t: Term, value: Term| !r.memory().holds(t, value),
    {
        Evaluator { node, cache: Cache::new(), depth: 0, limit: DEFAULT_LIMIT }
    }

    /// An evaluator for `node` that nests reductions at most `limit` deep.
    pub fn with_limit(node: Node, limit: usize) -> (r: Evaluator)
        ensures
            r.wf(),
            r.program() == node@,
            r.limit() == limit,
            r.fuel() == limit,
            forall|t: Term, value: Term| !r.memory().holds(t, value),
    {
        Evaluator { node, cache: Cache::new(), depth: 0, limit }
    }

    /// The result that is remembered for a term equal to `node`, if there
    /// is one.
    pub fn recall(&self, node: &Node) -> (r: Option<Node>)
        requires
            self.wf(),
        ensures
            r is Some ==> self.memory().holds(node@, r->Some_0@),
            r is None ==> forall|value: Term| !self.memory().holds(node@, value),
    {
        self.cache.recall(node)
    }

    /// Reduces the program to a value.
    pub fn evaluate(&mut self) -> (r: Result<Node, Error>)
        requires
            old(self).wf(),
        ensures
            final(self).wf(),
            final(self).program() == old(self).program(),
            final(self).fuel() == old(self).fuel(),
            final(self).limit() == old(self).limit(),
            final(self).memory().keeps(&old(self).memory()),
            agrees(old(self).program(), old(self).fuel(), node_outcome(r)),
            r is Ok ==> is_value(r->Ok_0@),
            is_value(old(self).program()) ==> node_outcome(r) == Ok::<Term, Error>(
                old(self).program(),
            ),
    {
        let program = self.node.clone();
        let r = self.evaluate_node(&program);
        proof {
            if r is Ok {
                let f = choose|f: nat| eval(program@, f) == node_outcome(r);
                lemma_eval_gives_value(program@, f);
            }
        }
        r
    }

    /// Reduces `node` to a value. The node, whatever its kind, is first looked
    /// up in the memory: a result remembered for an equal term is given back
    /// at once. After a miss the node is reduced, and the result, where there
    /// is one, is remembered for it.
    pub fn evaluate_node(&mut self, node: &Node) -> (r: Result<Node, Error>)
        requires
            old(self).wf(),
        ensures
            final(self).wf(),
            final(self).program() == old(self).program(),
            final(self).fuel() == old(self).fuel(),
            final(self).limit() == old(self).limit(),
            final(self).memory().keeps(&old(self).memory()),
            agrees(node@, old(self).fuel(), node_outcome(r)),
            forall|value: Term| #[trigger]
                old(self).memory().holds(node@, value) ==> node_outcome(r) == Ok::<Term, Error>(
                    value,
                ),
            r is Ok ==> final(self).memory().holds(node@, r->Ok_0@),
        decreases old(self).fuel(), 1int,
    {
        match self.cache.recall(node) {
            Some(value) => {
                proof {
                    lemma_agrees_settled(node@, self.fuel(), Ok(value@));
                    self.cache.lemma_keeps_itself();
                    assert forall|other: Term| #[trigger]
                        self.cache.holds(node@, other) implies other == value@ by {
                        lemma_outcome_is_unique(node@, Ok(other), Ok(value@));
                    }
                }
                return Ok(value);
            },
            None => {},
        }
        let result = match node {
            Node::Integer(_) | Node::String(_) | Node::Boolean(_) | Node::Lambda(_, _) => {
                proof {
                    assert(eval(node@, 0) == Ok::<Term, Error>(node@));
                    lemma_agrees_settled(node@, self.fuel(), Ok(node@));
                    self.cache.lemma_keeps_itself();
                }
                Ok(node.clone())
            },
            Node::Variable(_) => {
                proof {
                    assert(eval(node@, 0) == Err::<Term, Error>(Error::Type));
                    lemma_agrees_settled(node@, self.fuel(), Err(Error::Type));
                    self.cache.lemma_keeps_itself();
                }
                Err(Error::Type)
            },
            Node::UnaryOperator(operator, operand) => self.evaluate_unary_operator(
                operator.as_str(),
                (**operand).clone(),
            ),
            Node::BinaryOperator(_, _, _) => self.evaluate_binary_operator(node.clone()),
            Node::If(condition, first, second) => {
                if self.depth >= self.limit {
                    proof {
                        lemma_agrees_exhausted(node@);
                        self.cache.lemma_keeps_itself();
                    }
                    Err(Error::Exhausted)
                } else {
                    let ghost fuel = self.fuel();
                    self.depth += 1;
                    let chosen = match self.evaluate_node(condition) {
                        Ok(Node::Boolean(choice)) => {
                            let ghost between = self.cache;
                            let branch = if choice {
                                self.evaluate_node(first)
                            } else {
                                self.evaluate_node(second)
                            };
                            proof {
                                self.cache.lemma_keeps_through(&between, &old(self).cache);
                                lemma_agrees_branch(
                                    condition@,
                                    first@,
                                    second@,
                                    fuel,
                                    choice,
                                    node_outcome(branch),
                                );
                            }
                            branch
                        },
                        Ok(other) => {
                            proof {
                                lemma_agrees_no_choice(
                                    condition@,
                                    first@,
                                    second@,
                                    fuel,
                                    Ok(other@),
                                );
                            }
                            Err(Error::Type)
                        },
                        Err(e) => {
                            proof {
                                lemma_agrees_no_choice(condition@, first@, second@, fuel, Err(e));
                            }
                            Err(e)
                        },
                    };
                    self.depth -= 1;
                    chosen
                }
            },
            _ => {
                proof {
                    assert(false);
                }
                unreached()
            },
        };
        match &result {
            Ok(value) => {
                let ghost between = self.cache;
                self.cache.remember(node.clone(), value.clone());
                proof {
                    self.cache.lemma_keeps_through(&between, &old(self).cache);
                }
            },
            Err(_) => {},
        }
        result
    }

    /// Reduces `operand` to a value and applies the unary operator to it.
    pub fn evaluate_unary_operator(&mut self, operator: &str, operand: Node) -> (r: Result<
        Node,
        Error,
    >)
        requires
            old(self).wf(),
        ensures
            final(self).wf(),
            final(self).program() == old(self).program(),
            final(self).fuel() == old(self).fuel(),
            final(self).limit() == old(self).limit(),
            final(self).memory().keeps(&old(self).memory()),
            agrees(
                Term::UnaryOperator(operator@, Box::new(operand@)),
                old(self).fuel(),
                node_outcome(r),
            ),
        decreases old(self).fuel(), 0int,
    {
        if self.depth >= self.limit {
            proof {
                lemma_agrees_exhausted(Term::UnaryOperator(operator@, Box::new(operand@)));
                self.cache.lemma_keeps_itself();
            }
            return Err(Error::Exhausted);
        }
        let ghost fuel = self.fuel();
        self.depth += 1;
        let reduced = self.evaluate_node(&operand);
        self.depth -= 1;
        proof {
            lemma_agrees_unary(operator@, operand@, fuel, node_outcome(reduced));
        }
        match reduced {
            Ok(value) => apply_unary_operator(operator, &value),
            Err(e) => Err(e),
        }
    }

    /// Reduces a binary operator. For an operator other than application
    /// both operands are reduced, the left one first, and the operator is
    /// applied. An application takes one step after the other in a loop for
    /// as long as what comes out is an application again, and only then
    /// hands over to [`Evaluator::evaluate_node`]. What is no binary
    /// operator at all is `Error::Type`.
    pub fn evaluate_binary_operator(&mut self, node: Node) -> (r: Result<Node, Error>)
        requires
            old(self).wf(),
        ensures
            final(self).wf(),
            final(self).program() == old(self).program(),
            final(self).fuel() == old(self).fuel(),
            final(self).limit() == old(self).limit(),
            final(self).memory().keeps(&old(self).memory()),
            node@ is BinaryOperator ==> agrees(node@, old(self).fuel(), node_outcome(r)),
            !(node@ is BinaryOperator) ==> r is Err && r->Err_0 == Error::Type,
        decreases old(self).fuel(), 0int,
    {
        let entry = self.depth;
        let ghost start = node@;
        let ghost fuel = self.fuel();
        proof {
            self.cache.lemma_keeps_itself();
        }
        if !node_is_application(&node) {
            return match &node {
                Node::BinaryOperator(operator, left, right) => {
                    if self.depth >= self.limit {
                        proof {
                            lemma_agrees_exhausted(node@);
                        }
                        return Err(Error::Exhausted);
                    }
                    self.depth += 1;
                    let a = self.evaluate_node(left);
                    let r = match a {
                        Ok(a) => {
                            let ghost between = self.cache;
                            let b = self.evaluate_node(right);
                            proof {
                                self.cache.lemma_keeps_through(&between, &old(self).cache);
                                lemma_agrees_binary(
                                    operator@,
                                    left@,
                                    right@,
                                    fuel,
                                    Ok(a@),
                                    node_outcome(b),
                                );
                            }
                            match b {
                                Ok(b) => apply_binary_operator(operator.as_str(), &a, &b),
                                Err(e) => Err(e),
                            }
                        },
                        Err(e) => {
                            proof {
                                lemma_agrees_binary(
                                    operator@,
                                    left@,
                                    right@,
                                    fuel,
                                    Err(e),
                                    Err(e),
                                );
                            }
                            Err(e)
                        },
                    };
                    self.depth = entry;
                    r
                },
                _ => Err(Error::Type),
            };
        }
        let mut current = node;
        loop
            invariant
                self.wf(),
                self.program() == old(self).program(),
                self.limit == old(self).limit,
                self.cache.keeps(&old(self).cache),
                entry == old(self).depth,
                entry <= self.depth <= self.limit,
                start == node@,
                start is BinaryOperator,
                fuel == old(self).fuel(),
                is_application(current@),
                forall|outcome: Result<Term, Error>| #[trigger]
                    agrees(current@, self.fuel(), outcome) ==> agrees(start, fuel, outcome),
            decreases self.limit - self.depth,
        {
            if self.depth >= self.limit {
                proof {
                    lemma_agrees_exhausted(current@);
                    assert(agrees(current@, self.fuel(), Err(Error::Exhausted)));
                }
                self.depth = entry;
                return Err(Error::Exhausted);
            }
            let ghost here = self.fuel();
            self.depth += 1;
            let step = self.apply_one_lambda(&current);
            let next = match step {
                Ok(next) => {
                    proof {
                        let (left, right) = match current@ {
                            Term::BinaryOperator(_, left, right) => (*left, *right),
                            _ => (current@, current@),
                        };
                        assert(eval(left, 0) == Ok::<Term, Error>(left));
                        lemma_agrees_settled(left, (here - 1) as nat, Ok(left));
                        assert forall|outcome: Result<Term, Error>| #[trigger]
                            agrees(next@, self.fuel(), outcome) implies agrees(
                            start,
                            fuel,
                            outcome,
                        ) by {
                            match left {
                                Term::Lambda(binder, body) => {
                                    lemma_agrees_application(
                                        left,
                                        right,
                                        here,
                                        binder,
                                        *body,
                                        outcome,
                                    );
                                },
                                _ => {},
                            }
                            assert(agrees(current@, here, outcome));
                        }
                    }
                    next
                },
                Err(_) => {
                    let ghost between = self.cache;
                    match &current {
                        Node::BinaryOperator(_, left, right) => {
                            let function = self.evaluate_node(left);
                            proof {
                                self.cache.lemma_keeps_through(&between, &old(self).cache);
                            }
                            match function {
                                Ok(Node::Lambda(binder, body)) => {
                                    let next = Self::replace_variable(&body, &binder, right);
                                    proof {
                                        assert forall|outcome: Result<Term, Error>| #[trigger]
                                            agrees(next@, self.fuel(), outcome) implies agrees(
                                            start,
                                            fuel,
                                            outcome,
                                        ) by {
                                            lemma_agrees_application(
                                                left@,
                                                right@,
                                                here,
                                                binder@,
                                                body@,
                                                outcome,
                                            );
                                            assert(agrees(current@, here, outcome));
                                        }
                                    }
                                    next
                                },
                                Ok(other) => {
                                    proof {
                                        lemma_agrees_no_function(
                                            left@,
                                            right@,
                                            here,
                                            Ok(other@),
                                        );
                                        assert(agrees(current@, here, Err(Error::Type)));
                                    }
                                    self.depth = entry;
                                    return Err(Error::Type);
                                },
                                Err(e) => {
                                    proof {
                                        lemma_agrees_no_function(left@, right@, here, Err(e));
                                        assert(agrees(current@, here, Err(e)));
                                    }
                                    self.depth = entry;
                                    return Err(e);
                                },
                            }
                        },
                        _ => {
                            proof {
                                assert(false);
                            }
                            unreached()
                        },
                    }
                },
            };
            if node_is_application(&next) {
                current = next;
            } else {
                let ghost between = self.cache;
                let r = self.evaluate_node(&next);
                proof {
                    self.cache.lemma_keeps_through(&between, &old(self).cache);
                }
                self.depth = entry;
                return r;
            }
        }
    }

    /// One step of an application whose left operand is a lambda as it
    /// stands: the body of the lambda with the right operand in place of the
    /// bound variable. Anything else is `Error::Type`.
    pub fn apply_one_lambda(&self, node: &Node) -> (r: Result<Node, Error>)
        ensures
            is_redex(node@) ==> r is Ok && r->Ok_0@ == beta_step(node@),
            !is_redex(node@) ==> r is Err && r->Err_0 == Error::Type,
    {
        if !node_is_application(node) {
            return Err(Error::Type);
        }
        match node {
            Node::BinaryOperator(_, left, right) => {
                proof {
                    assert(node@->BinaryOperator_1 == Box::new(left@));
                }
                match &**left {
                    Node::Lambda(binder, body) => {
                        proof {
                            assert(left@ == Term::Lambda(binder@, Box::new(body@)));
                        }
                        Ok(Self::replace_variable(body, binder, right))
                    },
                    _ => Err(Error::Type),
                }
            },
            _ => Err(Error::Type),
        }
    }

    /// `node` with `argument` in place of the free occurrences of the
    /// variable `binder`.
    pub fn replace_variable(node: &Node, binder: &Integer, argument: &Node) -> (r: Node)
        ensures
            r@ == substitute(node@, binder@, argument@),
        decreases node,
    {
        match node {
            Node::Integer(_) => node.clone(),
            Node::String(_) => node.clone(),
            Node::Boolean(_) => node.clone(),
            Node::Variable(id) => if id.equals(binder) {
                argument.clone()
            } else {
                node.clone()
            },
            Node::Lambda(id, body) => if id.equals(binder) {
                node.clone()
            } else {
                Node::Lambda(id.clone(), Box::new(Self::replace_variable(body, binder, argument)))
            },
            Node::UnaryOperator(operator, operand) => Node::UnaryOperator(
                operator.clone(),
                Box::new(Self::replace_variable(operand, binder, argument)),
            ),
            Node::BinaryOperator(operator, left, right) => Node::BinaryOperator(
                operator.clone(),
                Box::new(Self::replace_variable(left, binder, argument)),
                Box::new(Self::replace_variable(right, binder, argument)),
            ),
            Node::If(condition, first, second) => Node::If(
                Box::new(Self::replace_variable(condition, binder, argument)),
                Box::new(Self::replace_variable(first, binder, argument)),
                Box::new(Self::replace_variable(second, binder, argument)),
            ),
        }
    }
}

} // verus!
