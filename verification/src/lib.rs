//! An interpreter for a small call-by-name lambda language whose programs
//! travel as space-separated tokens over a 94-character wire alphabet.
//!
//! The stages are, in order: the alphabet codec ([`alphabet`]), the tokenizer
//! ([`tokenizer`]), the parser ([`parser`]) and the evaluator ([`evaluator`]).
//! Each executable function is specified against a mathematical model of its
//! stage and proved to meet it: [`term`] holds the model of the language and
//! the laws of its reduction.
//!
//! Around the stages stand the integers of any size that the language
//! computes with ([`integer`]), the memory of the evaluator ([`cache`]), a
//! transpiler to Lisp ([`transpiler`]), and what tools that build programs
//! need ([`builtin`], [`compress`]). [`three_d`] reads the grids of a second
//! language.

pub mod error;
pub mod chars;
pub mod integer;
pub mod alphabet;
pub mod tokenizer;
pub mod term;
pub mod parser;
pub mod cache;
pub mod evaluator;
pub mod builtin;
pub mod compress;
pub mod transpiler;
pub mod three_d;
