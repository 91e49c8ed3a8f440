//! Static analyses of CommonJS modules, for a bundler that removes what nobody uses.
//!
//! - [`cjs_exports`] finds the named exports that a module writes as `exports.foo = …`, and removes
//!   the writes of those that no consumer uses.
//! - [`require_usage`] finds which exports of a required module a program uses, by how the results
//!   of its `require("…")` calls are consumed.
//!
//! Both work on the tree of [`syntax`]. Each function's contract says what it returns;
//! [`cjs_exports::properties`] and [`require_properties`] state what follows for the analyses as a
//! whole, and [`syntax_properties`], [`cjs_exports::guarantees`] and [`require_guarantees`] tie what
//! the contracts speak of to the syntax itself. What is taken from outside crates without proof
//! stands in [`outside`].

pub mod analyzer;
pub mod cjs_exports;
pub mod names;
pub mod outside;
pub mod require_guarantees;
pub mod require_properties;
pub mod require_usage;
pub mod syntax;
pub mod syntax_properties;
