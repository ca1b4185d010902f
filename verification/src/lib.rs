//! A canonical LR(1) parser generator and table-driven shift-reduce parser.
//!
//! A grammar is given as productions over the symbols of a symbol table. From it the FIRST
//! and FOLLOW sets, the canonical collection of sets of LR(1) items and the ACTION and GOTO
//! tables are derived; the parser walks the tables over a row of tokens and builds the
//! parse tree.

pub mod acceptance;
pub mod action;
pub mod canonical_collection;
pub mod collection_laws;
pub mod derivation;
pub mod determinism;
pub mod errors;
pub mod first_and_follow;
pub mod grammar;
pub mod item_set;
pub mod lr1_item;
pub mod parse_tables;
pub mod parse_tree;
pub mod parser;
pub mod production;
pub mod stack_safety;
pub mod symbol;
pub mod symbol_set;
pub mod table;
pub mod text;

pub use crate::errors::{
    GrammarDefinitionError, ParseError, TableConflictDiagnostic, TableConflictError,
};
pub use crate::grammar::Grammar;
pub use crate::parse_tree::ParseTree;
pub use crate::parser::Parser;
pub use crate::production::Production;
pub use crate::symbol::{Symbol, SymbolDb};
