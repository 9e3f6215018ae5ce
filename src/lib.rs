//! A just-in-time compiler for a tiny imperative language: source text is
//! lexed, parsed into an AST, its variables are discovered, and it is lowered
//! to a plain sequence of SSA-builder instructions that a native code
//! generator replays. Each instruction uses only values and blocks that
//! earlier instructions made, so the replay never meets an unknown one.
//!
//! All values are pointer-width words; the library fixes that width at 64
//! bits, and a code generator on a host of another width must refuse it. `+`, `-` and `*` wrap; comparisons are
//! signed and give 0 or 1; `/` is an unsigned division, a known sharp edge
//! of the language. Literals are decimal and truncated to the word width.
//! No word is reserved: `if` and `while` open an expression only where an
//! expression starts and another one follows them, `else` and `fn` only at
//! their places in an `if` and a definition; anywhere else they are names.

pub mod ast;
pub mod lexer;
pub mod grammar;
pub mod parser;
pub mod vars;
pub mod ir;
pub mod lower;
pub mod calls;
pub mod jit;
pub mod blocks;
pub mod refs;
pub mod printer;
