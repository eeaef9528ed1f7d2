pub mod ast;
pub mod parse;
