//! Push authorization guard for agent-driven use of git: a command-line
//! parser for branch creations and pushes, a ledger of created and
//! authorized branches, and the evaluator that combines them.

pub mod text;
pub mod parser;
pub mod ledger;
pub mod evaluator;
pub mod probe;
pub mod hook;
