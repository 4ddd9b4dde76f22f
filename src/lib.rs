pub mod span;
pub mod diagnostics;
pub mod ast;
pub mod operations;
pub mod arithmetic;
pub mod text;
pub mod context;
pub mod lexer;
pub mod expression;
pub mod declaration;
pub mod resolution;
pub mod module;
pub mod util;
pub mod types;
