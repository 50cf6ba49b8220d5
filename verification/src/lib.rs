//! The core of a small command shell in the manner of POSIX.
//!
//! Text is lexed (`lexer`) and parsed (`grammar`) into a syntax tree (`ast`),
//! which can be written out again (`render`). The evaluator (`eval`) walks
//! the tree as a machine that asks its host for every effect on the
//! operating system, one action at a time: it expands words (`expand`),
//! keeps the variables (`environment`), runs the built-in commands
//! (`builtins`) and plans what a child is to run (`exec`). What a driver
//! decides about its input is in `shell`.
//!
//! Text is bytes throughout, and a position in it is a byte offset.
//!
//! Four modules hold statements about the others and their proofs:
//! `account` about the children and the file descriptors of a pipeline,
//! `progress` about the end of an evaluation, and `relex` and `reparse`
//! about a program that is written out and read again.

pub mod account;
pub mod ast;
pub mod builtins;
pub mod bytes;
pub mod context;
pub mod environment;
pub mod errno;
pub mod eval;
pub mod exec;
pub mod expand;
pub mod grammar;
pub mod lexer;
pub mod progress;
pub mod relex;
pub mod render;
pub mod reparse;
pub mod shell;
