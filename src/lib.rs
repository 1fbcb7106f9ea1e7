//! An exact rational calculator in reverse Polish notation, with user-defined
//! functions, recursion and iterative loops: the lexer, the expression extractor,
//! the tree builder, the evaluator and the command dispatcher, each with its
//! contract.
pub mod calculator;
pub mod execution;
pub mod lexer;
pub mod number;
pub mod strings;
pub mod token;
pub mod utils;
