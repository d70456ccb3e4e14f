//! An interpreter core for a small scripting language in which a variable is
//! changed through speculative branches: a branch records the generation of
//! the variable it watches when it is opened, and its merge commits only if
//! that generation is still current.

pub mod value;
pub mod value_laws;
pub mod world;
pub mod branch;
pub mod interp;
pub mod program;
pub mod lexer;
pub mod parser;
