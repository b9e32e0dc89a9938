//! Run-length form of a text, and the compact program that is built on it.
//!
//! A text with long runs of one character can be written as a program that
//! is shorter than the text: short runs stay literal, and each long run
//! becomes a call of a function that repeats a character.

use crate::alphabet::{is_text_char, text_index};
use crate::builtin::{
    abstraction, application, operation, repeat_char, repeat_char_operator, repeat_char_term,
    y_combinator, y_combinator_term,
};
use crate::chars::{chars_of, string_of};
use crate::error::Error;
use crate::integer::Integer;
use crate::parser::{term_text, Node};
use crate::term::{symbol, Term};
use std::collections::VecDeque;
use vstd::prelude::*;

verus! {

/// `count` times the character `c`.
pub open spec fn repeated(c: char, count: nat) -> Seq<char> {
    Seq::new(count, |i: int| c)
}

/// The text that the runs stand for: for each pair in order, its character
/// as often as its count says.
pub open spec fn expand(runs: Seq<(char, usize)>) -> Seq<char>
    decreases runs.len(),
{
    if runs.len() == 0 {
        Seq::empty()
    } else {
        expand(runs.drop_last()) + repeated(runs.last().0, runs.last().1 as nat)
    }
}

/// Whether the runs are as long as they can be: none is empty, and no two
/// neighbours have the same character.
pub open spec fn is_maximal(runs: Seq<(char, usize)>) -> bool {
    &&& forall|i: int| 0 <= i < runs.len() ==> (#[trigger] runs[i]).1 >= 1
    &&& forall|i: int| 0 <= i < runs.len() - 1 ==> (#[trigger] runs[i]).0 != runs[i + 1].0
}

/// The runs of `text`: each character that differs from the one before it,
/// with the number of times it is repeated.
pub fn get_compress_collection(text: &str) -> (r: VecDeque<(char, usize)>)
    ensures
        expand(r@) == text@,
        is_maximal(r@),
{
    let chars = chars_of(text);
    let mut runs: VecDeque<(char, usize)> = VecDeque::new();
    if chars.len() == 0 {
        proof {
            assert(expand(runs@) =~= text@);
        }
        return runs;
    }
    let mut last: char = chars[0];
    let mut count: usize = 1;
    let mut i: usize = 1;
    proof {
        assert(expand(runs@) + repeated(last, count as nat) =~= chars@.take(1));
    }
    while i < chars.len()
        invariant
            1 <= i <= chars@.len(),
            1 <= count <= i,
            last == chars@[i - 1],
            is_maximal(runs@),
            runs@.len() > 0 ==> runs@.last().0 != last,
            expand(runs@) + repeated(last, count as nat) == chars@.take(i as int),
        decreases chars@.len() - i,
    {
        let c = chars[i];
        let ghost before = runs@;
        if c == last {
            count += 1;
            proof {
                assert(repeated(last, count as nat) =~= repeated(last, (count - 1) as nat).push(
                    last,
                ));
                assert(chars@.take(i + 1) =~= chars@.take(i as int).push(c));
                assert(expand(runs@) + repeated(last, (count - 1) as nat).push(last) =~= (expand(
                    runs@,
                ) + repeated(last, (count - 1) as nat)).push(last));
            }
        } else {
            runs.push_back((last, count));
            proof {
                assert(runs@.drop_last() =~= before);
                assert(chars@.take(i + 1) =~= chars@.take(i as int).push(c));
                assert(repeated(c, 1) =~= seq![c]);
                assert(expand(runs@) + seq![c] =~= expand(runs@).push(c));
            }
            last = c;
            count = 1;
        }
        i += 1;
    }
    let ghost before = runs@;
    runs.push_back((last, count));
    proof {
        assert(runs@.drop_last() =~= before);
        assert(chars@.take(i as int) =~= chars@);
    }
    runs
}

/// The longest run that stays literal.
pub const SHORT: usize = 12;

/// Whether every run holds at least one character.
pub open spec fn no_run_is_empty(runs: Seq<(char, usize)>) -> bool {
    forall|i: int| 0 <= i < runs.len() ==> (#[trigger] runs[i]).1 >= 1
}

/// How many runs at the front are short.
pub open spec fn short_runs(runs: Seq<(char, usize)>) -> int
    decreases runs.len(),
{
    if runs.len() == 0 || runs[0].1 > 12 {
        0
    } else {
        1 + short_runs(runs.drop_first())
    }
}

/// The call that repeats the character of a run: the repeating function,
/// which the program binds to the variable 0, applied to 94 times the count
/// plus the index of the character in the text alphabet.
pub open spec fn repeat_call(run: (char, usize)) -> Term {
    application(Term::Variable(0), Term::Integer(94 * run.1 + text_index(run.0)))
}

/// The term that stands for the runs, or nothing for no runs.
///
/// The short runs at the front stay literal, as one string. The first long
/// run after them becomes a call; where there is none, the last short run
/// becomes a call on top of being in the string. What has been said so far
/// is joined by `.` with the term for the runs that follow. A run that
/// becomes a call needs a character of the text alphabet:
/// `Error::Alphabet` otherwise.
pub open spec fn operation_term(runs: Seq<(char, usize)>) -> Result<Option<Term>, Error>
    decreases runs.len(),
{
    if runs.len() == 0 {
        Ok(None)
    } else {
        let j = short_runs(runs);
        let cut = 0 <= j < runs.len();
        let literal = if cut {
            expand(runs.take(j))
        } else {
            expand(runs)
        };
        let called = if cut {
            runs[j]
        } else {
            runs.last()
        };
        let rest = if cut {
            runs.skip(j + 1)
        } else {
            Seq::empty()
        };
        if !is_text_char(called.0) {
            Err(Error::Alphabet)
        } else {
            match operation_term(rest) {
                Ok(child) => {
                    let next = match child {
                        Some(following) => operation('.', repeat_call(called), following),
                        None => repeat_call(called),
                    };
                    Ok(
                        Some(
                            if literal.len() == 0 {
                                next
                            } else {
                                operation('.', Term::String(literal), next)
                            },
                        ),
                    )
                },
                Err(e) => Err(e),
            }
        }
    }
}

/// The program around the term for the runs: the term with the variable 0
/// bound to the fixed point of the repeating function.
pub open spec fn compressed_program(body: Term) -> Term {
    application(abstraction(0, body), application(y_combinator_term(), repeat_char_term()))
}

/// The shorter of the two on the wire: the text as one string, or the
/// program built on its runs. The string wins a tie. Where one of them
/// cannot be written on the wire, that error comes.
pub open spec fn shorter_program(runs: Seq<(char, usize)>, text: Seq<char>) -> Result<Term, Error> {
    match operation_term(runs) {
        Ok(Some(body)) => match term_text(Term::String(text)) {
            Ok(plain) => match term_text(compressed_program(body)) {
                Ok(compact) => Ok(
                    if plain.len() <= compact.len() {
                        Term::String(text)
                    } else {
                        compressed_program(body)
                    },
                ),
                Err(e) => Err(e),
            },
            Err(e) => Err(e),
        },
        Ok(None) => Ok(Term::String(text)),
        Err(e) => Err(e),
    }
}

/// What the outcome of building a term stands for.
pub open spec fn option_outcome(r: Result<Option<Node>, Error>) -> Result<Option<Term>, Error> {
    match r {
        Ok(Some(node)) => Ok(Some(node@)),
        Ok(None) => Ok(None),
        Err(e) => Err(e),
    }
}

/// What the outcome of building a program stands for.
pub open spec fn program_outcome(r: Result<Node, Error>) -> Result<Term, Error> {
    match r {
        Ok(node) => Ok(node@),
        Err(e) => Err(e),
    }
}

/// The short runs at the front end at the first long run.
proof fn lemma_short_runs(runs: Seq<(char, usize)>, j: int)
    requires
        0 <= j <= runs.len(),
        forall|k: int| 0 <= k < j ==> (#[trigger] runs[k]).1 <= 12,
        j < runs.len() ==> runs[j].1 > 12,
    ensures
        short_runs(runs) == j,
    decreases j,
{
    if j > 0 {
        let tail = runs.drop_first();
        assert forall|k: int| 0 <= k < j - 1 implies (#[trigger] tail[k]).1 <= 12 by {
            assert(tail[k] == runs[k + 1]);
        }
        if j - 1 < tail.len() {
            assert(tail[j - 1] == runs[j]);
        }
        lemma_short_runs(tail, j - 1);
    }
}

/// The application of `function` to `argument`.
fn apply(function: Node, argument: Node) -> (r: Node)
    ensures
        r@ == application(function@, argument@),
{
    let mut dollar = String::new();
    dollar.push('$');
    proof {
        assert(dollar@ =~= symbol('$'));
    }
    Node::BinaryOperator(dollar, Box::new(function), Box::new(argument))
}

/// The concatenation of `left` and `right`.
fn join(left: Node, right: Node) -> (r: Node)
    ensures
        r@ == operation('.', left@, right@),
{
    let mut dot = String::new();
    dot.push('.');
    proof {
        assert(dot@ =~= symbol('.'));
    }
    Node::BinaryOperator(dot, Box::new(left), Box::new(right))
}

/// Builds the term that stands for the runs, and uses the runs up.
pub fn generate_compress_operation_node(runs: &mut VecDeque<(char, usize)>) -> (r: Result<
    Option<Node>,
    Error,
>)
    requires
        no_run_is_empty(old(runs)@),
    ensures
        option_outcome(r) == operation_term(old(runs)@),
    decreases old(runs)@.len(),
{
    let ghost all = runs@;
    let first = runs.pop_front();
    let (c, count) = match first {
        Some(run) => run,
        None => {
            return Ok(None);
        },
    };
    let mut literal: Vec<char> = Vec::new();
    let mut final_c = c;
    let mut final_count = count;
    let mut used_up = false;
    let ghost mut j: int = 0;
    proof {
        assert(all.take(0) =~= Seq::<(char, usize)>::empty());
        assert(runs@ =~= all.skip(1));
    }
    while final_count <= SHORT && !used_up
        invariant
            0 <= j < all.len(),
            all == old(runs)@,
            !used_up ==> runs@ == all.skip(j + 1),
            !used_up ==> literal@ == expand(all.take(j)),
            !used_up ==> forall|k: int| 0 <= k < j ==> (#[trigger] all[k]).1 <= 12,
            used_up ==> j == all.len() - 1 && runs@.len() == 0 && literal@ == expand(all)
                && forall|k: int| 0 <= k < all.len() ==> (#[trigger] all[k]).1 <= 12,
            (final_c, final_count) == all[j],
        decreases all.len() - j, if used_up { 0int } else { 1int },
    {
        let ghost before = literal@;
        let mut i: usize = 0;
        while i < final_count
            invariant
                i <= final_count,
                literal@ == before + repeated(final_c, i as nat),
            decreases final_count - i,
        {
            literal.push(final_c);
            i += 1;
            proof {
                assert(literal@ =~= before + repeated(final_c, i as nat));
            }
        }
        proof {
            assert(all.take(j + 1).drop_last() =~= all.take(j));
            assert(all.take(j + 1).last() == all[j]);
        }
        match runs.pop_front() {
            Some(next) => {
                final_c = next.0;
                final_count = next.1;
                proof {
                    assert(runs@ =~= all.skip(j + 2));
                    j = j + 1;
                }
            },
            None => {
                used_up = true;
                proof {
                    assert(all.take(j + 1) =~= all);
                }
            },
        }
    }
    proof {
        if used_up {
            lemma_short_runs(all, all.len() as int);
        } else {
            lemma_short_runs(all, j);
        }
        assert(no_run_is_empty(runs@)) by {
            assert forall|k: int| 0 <= k < runs@.len() implies (#[trigger] runs@[k]).1 >= 1 by {
                if !used_up {
                    assert(runs@[k] == all[k + j + 1]);
                }
            }
        }
        assert(all[j].1 >= 1);
        if used_up {
            assert(runs@ =~= Seq::<(char, usize)>::empty());
            assert(all.last() == all[j]);
        }
    }
    let ghost rest = runs@;
    let ghost called = (final_c, final_count);
    let operator = match repeat_char_operator(final_c, final_count) {
        Ok(operator) => operator,
        Err(e) => {
            return Err(e);
        },
    };
    let call = apply(Node::Variable(Integer::from_u64(0)), operator);
    let next = match generate_compress_operation_node(runs) {
        Ok(Some(child)) => join(call, child),
        Ok(None) => call,
        Err(e) => {
            return Err(e);
        },
    };
    proof {
        assert(operation_term(rest) is Ok);
        assert(next@ == match operation_term(rest)->Ok_0 {
            Some(following) => operation('.', repeat_call(called), following),
            None => repeat_call(called),
        });
    }
    if literal.len() == 0 {
        Ok(Some(next))
    } else {
        Ok(Some(join(Node::String(string_of(literal.as_slice())), next)))
    }
}

/// The shorter of the two on the wire: `text` as one string, or the program
/// built on `runs`.
pub fn compress_program(runs: VecDeque<(char, usize)>, text: &str) -> (r: Result<Node, Error>)
    requires
        no_run_is_empty(runs@),
    ensures
        program_outcome(r) == shorter_program(runs@, text@),
{
    let mut runs = runs;
    let plain = Node::String(string_of(chars_of(text).as_slice()));
    let body = match generate_compress_operation_node(&mut runs) {
        Ok(Some(body)) => body,
        Ok(None) => {
            return Ok(plain);
        },
        Err(e) => {
            return Err(e);
        },
    };
    let lambda = Node::Lambda(Integer::from_u64(0), Box::new(body));
    let compact = apply(lambda, apply(y_combinator(), repeat_char()));
    let plain_text = match plain.to_string() {
        Ok(wire) => wire,
        Err(e) => {
            return Err(e);
        },
    };
    let compact_text = match compact.to_string() {
        Ok(wire) => wire,
        Err(e) => {
            return Err(e);
        },
    };
    if plain_text.as_str().unicode_len() <= compact_text.as_str().unicode_len() {
        Ok(plain)
    } else {
        Ok(compact)
    }
}

} // verus!
