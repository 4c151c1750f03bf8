//! Front end of a compiler for a small module-oriented expression language:
//! an interner for identifier text, append-only storages keyed by typed
//! monotonic handles, a breadth-first module-tree builder, and a two-phase
//! alias resolver that links every module alias to the concrete module it
//! denotes, compressing chains and detecting cycles.

pub mod ast;
pub mod ctx;
pub mod error;
pub mod id;
pub mod ir;
pub mod phases;
pub mod refs;
pub mod storage;
pub mod symbol;
