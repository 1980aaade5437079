//! An infix arithmetic calculator core: a tokenizer for expression strings,
//! an infix-to-postfix converter (the shunting-yard algorithm), and a postfix
//! evaluator that builds the symbolic value of the expression.

pub mod convert;
pub mod eval;
pub mod precedence;
pub mod token;
