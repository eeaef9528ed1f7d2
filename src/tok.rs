pub mod class;
pub mod delims;
pub mod ident;
pub mod lex;
pub mod tok;
pub mod tokbuf;
