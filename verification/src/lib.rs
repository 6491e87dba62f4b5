//! An interpreter for a tape language of eight single-character instructions, `+ - > < [ ] , .`,
//! in three parts: the tokenizer and the jump table of matching loop brackets in [`lexer`],
//! the theory of bracket nesting that the jump table is specified by in [`nesting`], and the
//! step-by-step execution engine in [`runtime`].
//!
//! The library touches no stream and no file. A caller tokenizes a source text, builds the
//! jump table, and then steps a [`runtime::State`] for as long as it can execute, carrying out
//! the [`runtime::Action`] that each step hands back.

pub mod lexer;
pub mod nesting;
pub mod runtime;
