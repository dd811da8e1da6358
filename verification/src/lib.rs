pub mod chars;
pub mod token;
pub mod value;
pub mod render;
pub mod lexer;
pub mod parser;
pub mod laws;
