use vstd::prelude::*;

use crate::ir::IR;

verus! {

/// Code that an assembler produced, which still has to be linked.
pub struct LinkableCode<A: Assembler>(pub(self) A);

impl<A: Assembler> LinkableCode<A> {
    /// What the assembler produced.
    pub closed spec fn code(&self) -> A {
        self.0
    }

    /// The size of the code, as its assembler counts it.
    pub fn size(&self) -> (n: usize)
        ensures
            n == self.code().code_size_spec(),
    {
        self.0.code_size()
    }

    /// Links the code, with the string literals placed at `str_literal_offset`.
    pub fn link(self, str_literal_offset: usize) -> (m: MachineCode)
        ensures
            m == self.code().machine_code_spec(str_literal_offset),
    {
        self.0.into_machine_code(str_literal_offset)
    }
}

/// Linked machine code: the instructions, where execution starts, the symbols with their
/// offsets, and the string literals.
pub struct MachineCode {
    pub instructions: Vec<u8>,
    pub entry_point_offset: u64,
    pub symbols: Vec<(String, u64)>,
    pub str_literals: Vec<String>,
}

impl Default for MachineCode {
    /// Machine code without instructions, symbols or strings, starting at offset 0.
    fn default() -> (m: Self)
        ensures
            m.instructions@.len() == 0,
            m.entry_point_offset == 0,
            m.symbols@.len() == 0,
            m.str_literals@.len() == 0,
    {
        MachineCode {
            instructions: Vec::new(),
            entry_point_offset: 0,
            symbols: Vec::new(),
            str_literals: Vec::new(),
        }
    }
}

/// A back end for one architecture. Its implementations state the size of the code they
/// produced and the machine code it links to.
pub trait Assembler: Sized {
    /// The size of this code.
    spec fn code_size_spec(&self) -> usize;

    /// The machine code that this code links to, with string literals at `str_literal_offset`.
    spec fn machine_code_spec(self, str_literal_offset: usize) -> MachineCode;

    fn assemble(ir: IR) -> LinkableCode<Self>;

    fn code_size(&self) -> (n: usize)
        ensures
            n == self.code_size_spec(),
    ;

    fn into_machine_code(self, str_literal_offset: usize) -> (m: MachineCode)
        ensures
            m == self.machine_code_spec(str_literal_offset),
    ;
}

} // verus!
