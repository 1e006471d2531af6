//! A lexer and source-location registry for a Pascal-family language.

pub mod codemap;
pub mod errors;
pub mod lex;
mod driver;

pub use driver::Driver;
