//! Rex front end: lexer, parser, name resolver and HIR lowering, with
//! contracts checked by Verus.

pub mod ast;
pub mod diagnostics;
pub mod hir;
pub mod lexer;
pub mod lowering;
pub mod name_resolver;
pub mod parser;
pub mod text;
