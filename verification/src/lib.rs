//! A build system's core for C and C++ projects: the configuration vocabulary,
//! the property schema and its merge rules, typed values, the byte format of
//! stored documents, the incremental query engine, and the on-disk stores,
//! each stated and proved with Verus.
#![allow(unused_imports)]

pub mod text;
pub mod value;
pub mod value_model;
pub mod value_eq;
pub mod strs;
pub mod config;
pub mod query;
pub mod schema;
pub mod merge;
pub mod diag;
pub mod specialize;
pub mod paths;
pub mod store;
pub mod inputs;
pub mod facts;
pub mod fetch;
pub mod codec;
pub mod document;
pub mod model;
pub mod package;
pub mod manifest;
pub mod graph;
pub mod deps;
pub mod declare;
pub mod walk;
pub mod interface;
pub mod literal;
pub mod target;
pub mod persist;
pub mod digest;
pub mod why;
pub mod rpc;
pub mod lsp;
