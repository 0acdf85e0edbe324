//! A scanner, tree builder and executor for a tape language of eight symbols.
//!
//! The three stages run in order: [`lexer::Lexer`] turns source text into
//! tokens and rejects ill-formed programs, [`parser::Parser`] nests the tokens
//! into a program tree, and [`interpreter::Interpreter`] walks that tree over
//! a growable tape of bytes. The module [`equivalence`] shows that a program
//! does the same whether or not the tree builder has collapsed its runs.
pub mod grammar;
pub mod lexer;
pub mod parser;
pub mod interpreter;
pub mod equivalence;
