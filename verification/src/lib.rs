//! An evaluator for the untyped lambda calculus: terms, capture-avoiding
//! substitution, reduction by three strategies, canonical forms for equality
//! up to the names of bound variables, and the inference of simple types;
//! around them a reader of statements, macros and an interpreter.

pub mod agreement;
pub mod alpha;
pub mod builtins;
pub mod confluence;
pub mod context;
pub mod debruijn;
pub mod environment;
pub mod error;
pub mod grammar;
pub mod interpreter;
pub mod lambda;
pub mod macros;
pub mod parsing;
pub mod stdlib;
pub mod strategy;
pub mod term;
pub mod text;
pub mod typing;
