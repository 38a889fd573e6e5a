//! PachaDB: an immutable graph database of facts, queried with a small Datalog.
//!
//! The `engine` module holds the Datalog evaluator (unification, substitution,
//! bottom-up fixpoint solving); the parsers turn query text into rules; the
//! planner, index, stores and transaction manager turn stated facts into rules
//! the engine can solve; `laws` states what holds of them together.

pub mod answers;
pub mod assoc;
pub mod ast;
pub mod backend;
pub mod db;
pub mod engine;
pub mod error;
pub mod fixpoint;
pub mod grammar;
pub mod index;
pub mod laws;
pub mod model;
pub mod nanolog_parser;
pub mod parser;
pub mod query_executor;
pub mod query_planner;
pub mod repl;
pub mod scanner;
pub mod seq_facts;
pub mod text;
pub mod tx_manager;
pub mod value;
