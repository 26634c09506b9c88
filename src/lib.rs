//! An interpreter for the eight-command tape language: lexing, run-length
//! folding, loop resolution, a step-by-step executor and a serializer, with
//! proofs that folding changes nothing a run does.

pub mod token;
pub mod lexer;
pub mod error;
pub mod loops;
pub mod machine;
pub mod source;
pub mod laws;
pub mod equivalence;
