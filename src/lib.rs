pub mod ast;
pub mod ast_proofs;
pub mod error;
pub mod lexer;
pub mod lexer_proofs;
pub mod parser;
pub mod token;
