//! Turns loose Rust source files into a buildable Cargo project: it extracts
//! explicit dependency directives from `//#` header comments, infers further
//! dependencies from `use` statements, synthesizes a deterministic manifest,
//! derives a content-path-addressed workspace identity for caching, plans the
//! materialization of the sources, and decides how the build is dispatched.

pub mod cargo;
pub mod errors;
pub mod opt;
pub mod infer;
pub mod steps;
pub mod text;
