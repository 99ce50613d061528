//! A small inference engine: terms, facts and rules, a parser for a Prolog-like syntax and
//! for simple French sentences, unification, forward and backward chaining, and export of
//! knowledge bases as text.
pub mod engine;
pub mod exporter;
pub mod parser;
pub mod text;
pub mod types;
pub mod roundtrip;
pub mod session;
pub mod visualize;
