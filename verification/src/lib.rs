pub mod accepted;
pub mod ast;
pub mod bottom_up;
pub mod error;
pub mod grammar;
pub mod laws;
pub mod lexer;
pub mod parser;
pub mod printing;
pub mod rendering;
pub mod roundtrip;
pub mod source_map;
pub mod type_map;
pub mod typer;
pub mod typing;
