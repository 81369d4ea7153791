//! An interpreter for a small untyped lambda calculus: literals, named global bindings,
//! single-parameter lambdas, application, and a fixed set of native operations.
//!
//! The grammar is a function from bytes to a program ([`grammar`], read by [`parser`]);
//! [`formatter`] shows a program as text that reads back as the same program
//! ([`roundtrip`]). [`evaluator`] reduces a term to weak head normal form by call-by-name
//! under a binding [`context`], with a bound on how deep reductions may nest;
//! [`interpreter`] runs statements, programs and the lines of a session. [`laws`] states
//! what holds of every evaluation.

pub mod ascii;
pub mod ast;
pub mod builtins;
pub mod context;
pub mod evaluator;
pub mod formatter;
pub mod grammar;
pub mod interpreter;
pub mod laws;
pub mod messages;
pub mod parser;
pub mod roundtrip;
