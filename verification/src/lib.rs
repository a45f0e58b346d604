//! Parser for a line-oriented arithmetic calculator: a recursive-descent
//! reading of `+ - * / ^` expressions over unsigned decimal literals and
//! parentheses, with the usual precedence, left-associative additive and
//! multiplicative levels, and a right-associative power level. The grammar
//! is stated as a specification-level parser in `grammar`, the executable
//! parser in `parser` is proved to agree with it byte for byte, and `laws`
//! proves the associativity and precedence facts that callers rely on.

pub mod ast;
pub mod grammar;
pub mod laws;
pub mod parser;
