//! The back end: assembling the IR into machine code.
pub mod arch;
pub mod exe;
