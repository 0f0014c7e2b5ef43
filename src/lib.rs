//! A small stack-oriented scripting language: a scanner that classifies
//! source text into tokens, a block parser that builds a command tree, and a
//! tree-walking evaluator over an operand stack, a global variable store and
//! a function table.

pub mod scanner;
pub mod command;
pub mod parser;
pub mod machine;
pub mod laws;

pub use scanner::{Token, TokenKind, LexError, scan};
pub use command::Command;
pub use parser::{Lexer, SyntaxError, parse_chars, parse_range};
pub use machine::{Interpreter, Output, RunError, MAX_DEPTH};
