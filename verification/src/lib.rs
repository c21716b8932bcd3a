//! Facts, rules and queries of a small Datalog-style language, with a parser
//! for their text form and a writer that renders them back to it.
//!
//! Every data type has a mathematical model ([`model::Term`],
//! [`model::Atom`], [`model::Clause`]); the grammar and the
//! canonical text are spec functions over these models, and the executable
//! parser and renderer are proved against them.

pub mod grammar;
pub mod lines;
pub mod model;
pub mod parser;
pub mod predicates;
pub mod roundtrip;
pub mod text;
pub mod writer;
