//! A small ahead-of-time compiler for a Scheme-like Lisp dialect that
//! produces x86-64 assembly in GNU Intel syntax.
//!
//! The pipeline has three stages, composed strictly front to back:
//! lexical analysis ([`lexer`]), recursive-descent parsing with scope
//! resolution, variable classification and lambda lifting ([`parser`]),
//! and lowering of the resulting intermediate form to assembly text
//! ([`codegen`], with the line-level representation in [`emit`]).

pub mod codegen;
pub mod emit;
pub mod decimal;
pub mod lexer;
pub mod parser;
