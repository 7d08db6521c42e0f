//! Parsing, rewriting and printing of a game engine's dumped script trees.
pub mod text;
pub mod value;
pub mod lexer;
pub mod parser;
pub mod printer;
pub mod scenario;
pub mod script;
