//! Structural analysis of ConTeXt documents: a lossless concrete syntax tree,
//! a typed abstract syntax tree, highlight spans, diagnostics and a session
//! that keeps all of them per open document.
use vstd::prelude::*;

pub mod text;
pub mod ast;
pub mod lexer;
pub mod syntax;
pub mod parser;
pub mod highlight;
pub mod diagnostic;
pub mod runtime;
pub mod runtime_config;
pub mod ffi_bridge;
pub mod laws;
pub mod workspace;
pub mod backend_traits;
pub mod compilation;

verus! {

/// Sum of two integers whose sum fits in `u64`.
pub fn add(left: u64, right: u64) -> (r: u64)
    requires
        left + right <= u64::MAX,
    ensures
        r == left + right,
{
    left + right
}

} // verus!
