//! An interpreter for a small Lua-like scripting language: source text is
//! split into fragments, classified into tokens, parsed into statements, and
//! executed against a stack of lexical scopes.

pub mod value;
pub mod lexer;
pub mod parser;
pub mod interpreter;
