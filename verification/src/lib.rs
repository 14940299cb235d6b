//! Middle end of a Fortran compiler: lexical analysis, an SSA intermediate
//! representation with its verifier, and the optimisation passes over it.

pub mod cli;
pub mod ids;
pub mod ir;
pub mod lexer;
pub mod lists;
pub mod opt;
pub mod target;
pub mod text;
