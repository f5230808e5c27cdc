//! A Reverse Polish Notation arithmetic evaluator.
//!
//! The pipeline has three stages, each in its own module: `tokenizer` scans a
//! line of text into tokens, `parser` folds the token stream into one
//! expression tree with an explicit stack, and `interpreter` reduces the tree
//! to a single number.
//!
//! The crate itself contains no floating-point code.  A float literal is kept
//! as its spelling (the scanned characters), a float value as its IEEE-754
//! bit pattern (`u32`).  Whenever evaluation needs a floating-point step it
//! stops and hands the caller a `FloatTask`; the caller performs the step in
//! its own float unit and re-invokes evaluation with the result appended to
//! the answer list.  Everything around those steps is verified.

pub mod interpreter;
pub mod numerals;
pub mod parser;
pub mod tokenizer;
