//! The core of a small Lisp interpreter.
//!
//! A text is read into an expression ([`reader`]), an expression is
//! evaluated in a scope of a runtime ([`eval`], [`env`], [`builtins`]), and a
//! value is printed as text again ([`printer`]). [`types`] holds the
//! expressions and their equality, [`text`] what is done character by
//! character.
//!
//! Every function states what it returns over mathematical values; the
//! modules [`laws`], [`equality`], [`growth`], [`trace`] and [`roundtrip`]
//! hold what is proved of those statements.

pub mod builtins;
pub mod env;
pub mod equality;
pub mod eval;
pub mod growth;
pub mod laws;
pub mod printer;
pub mod reader;
pub mod roundtrip;
pub mod text;
pub mod trace;
pub mod types;
