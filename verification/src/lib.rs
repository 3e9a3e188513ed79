//! A dependency-injection runtime: a type-keyed singleton registry (the
//! graph), a declarative module builder, and a recursive build algorithm
//! that wires imports, providers and consumers together while constructing
//! every module and every singleton at most once.

pub mod config;
pub mod graph;
pub mod laws;
pub mod log;
pub mod module;
pub mod pool;
pub mod route;
