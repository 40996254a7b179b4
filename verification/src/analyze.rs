//! The analysed syntax tree that code generation lowers into the intermediate representation.
pub mod ast;
pub mod semantics;
