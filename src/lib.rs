pub mod evaluate;
pub mod lexer;
pub mod parser;
pub mod pipeline;
