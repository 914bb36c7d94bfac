//! A declarative command-line definition and dispatch engine.
//!
//! A command surface is described once as a tree of [`model::CommandSpec`]
//! nodes, each holding flag and positional [`model::ArgSpec`] declarations
//! and named child commands.  A raw argument sequence is then turned into a
//! typed, validated invocation in three verified stages: the tokenizer
//! ([`token`]) splits the raw strings into lexical tokens, the resolver
//! ([`resolve`]) walks the tokens against the model and binds values, and
//! the validator ([`validate`]) checks the bindings against every
//! declaration along the selected command path, coercing them to their
//! declared types, applying defaults, and aggregating every diagnostic
//! into one report.  The [`invoke`] module chains the stages into a single
//! [`invoke::parse`] call, and a small router ([`dispatch`]) maps a
//! resolved command chain to a registered handler identifier.

pub mod arith;
pub mod dispatch;
pub mod invoke;
pub mod model;
pub mod resolve;
pub mod token;
pub mod validate;
