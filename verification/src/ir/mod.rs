//! The intermediate representation: types, instructions, walking helpers and
//! the verifier.

pub mod cfg;
pub mod dom;
pub mod dom_laws;
pub mod domtree;
pub mod inst;
pub mod keep;
pub mod loops;
pub mod operand_laws;
pub mod sound;
pub mod types;
pub mod typing;
pub mod verify;
pub mod walk;
