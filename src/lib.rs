pub mod diagnostic;
pub mod parse;
pub mod source_unit;
pub mod tok;
pub mod util;
