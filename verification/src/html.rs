pub mod dom;
pub mod error;
pub mod grammar;
pub mod laws;
pub mod parser;
pub mod text;
