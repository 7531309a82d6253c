//! A lexical-analysis engine over deterministic finite automata.
//!
//! - `loc`, `text` and `lexer`: positions, texts, and the session of a lexer
//!   over one input, with the operations that everything else is built from.
//! - `dfa` and `right_ctx`: the automaton, and the right contexts that choose
//!   among its accepting candidates by looking ahead.
//! - `engine`: the matching engine, which runs the automaton on a session;
//!   `munch` proves that its matches are the longest ones.
//! - `search_table`, `grouping`, `dispatch`, `codegen` and
//!   `right_ctx_codegen`: the compilation of an automaton into a dispatch
//!   program; `depth` says when there is one, `dispatcher` runs it on a
//!   session, and `equivalence` proves that it does what the automaton does.

pub mod codegen;
pub mod depth;
pub mod dfa;
pub mod dispatch;
pub mod dispatcher;
pub mod engine;
pub mod equivalence;
pub mod grouping;
pub mod lexer;
pub mod loc;
pub mod munch;
pub mod right_ctx;
pub mod right_ctx_codegen;
pub mod search_table;
pub mod text;

pub use lexer::{Lexer, LexerError, LexerErrorKind, SemanticActionResult};
pub use loc::Loc;
