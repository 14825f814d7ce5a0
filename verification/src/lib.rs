//! Verified core of the Rhai analysis database: the type lattice used by
//! inference, overload selection, generic specialisation, and the text and
//! workspace helpers that the database queries are built from.

use vstd::prelude::*;

pub mod text;
pub mod ty;
pub mod lattice;
pub mod overload;
pub mod host;
pub mod generics;
pub mod workspace;
pub mod paths;
pub mod symbols;
pub mod hover;
pub mod signatures;
pub mod calls;
pub mod mutation;
pub mod changes;
pub mod cache;
pub mod auto_import;
pub mod directives;
pub mod narrowing;
pub mod flow;
pub mod receiver;
pub mod diagnostics;
pub mod inference;
pub mod spans;
pub mod scopes;
pub mod expr_types;
pub mod rename;
pub mod expected;
pub mod stats;
pub mod seeds;
pub mod module_completions;
pub mod query_support;

verus! {

} // verus!
