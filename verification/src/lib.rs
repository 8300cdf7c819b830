//! An integer expression evaluator: text is split into tokens, the tokens are
//! arranged into a binary expression tree by operator precedence, and the
//! tree is folded into a 32-bit integer.
//!
//! Every stage is a pure function with a contract over a mathematical model
//! of its input, so each of them can be reasoned about on its own:
//!
//! - `lexer`: `tokenize`, which gives the tokens that `lex` defines;
//! - `builder`: `to_expression_tree`, which gives the tree that `build`
//!   defines by two stacks;
//! - `tree` and `op`: the tree, its value, and the arithmetic of an operator.
//!
//! The other modules prove what holds of these stages together: `infix` and
//! `writing` that an expression in the usual notation is read as the tree it
//! denotes, `grouping` that parentheses around an expression change nothing,
//! `balance` that unmatched parentheses are refused, and `shape` how large
//! the tree of a token sequence is.

pub mod balance;
pub mod builder;
pub mod error;
pub mod grouping;
pub mod infix;
pub mod lexer;
pub mod op;
pub mod shape;
pub mod token;
pub mod tree;
pub mod writing;

pub use builder::to_expression_tree;
pub use error::{ArithmeticError, LexError, StructuralError};
pub use lexer::tokenize;
pub use op::Op;
pub use token::Token;
pub use tree::{BinaryExpressionTree, Item};
