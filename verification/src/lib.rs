//! Basil: the intermediate representation of the Basil compiler, its lowering from the
//! analysed syntax tree, and the interfaces of the back end.
pub mod analyze;
pub mod files;
pub mod ir;
pub mod synthesize;
