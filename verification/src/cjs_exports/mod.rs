//! Removes the named exports of a statically-analyzable CommonJS module that no consumer uses.
//!
//! A CommonJS module exposes its named exports as inline `exports.foo = …` statements in the module
//! body. [`recognize`] finds those writes; [`code_gen`] removes the statement for every export that
//! the module graph reports unused and whose value is side-effect-free.
//!
//! An export is removed only when it is genuinely unobservable. The module graph reports a module as
//! used in whole for any `require()` or otherwise dynamic consumer, so a statement goes only when
//! every consumer is a named import that doesn't name it.

pub mod code_gen;
pub mod guarantees;
pub mod properties;
pub mod recognize;

pub use code_gen::CjsExportsDropCodeGen;
pub use recognize::analyze_cjs_exports;
