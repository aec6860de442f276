use vstd::prelude::*;

verus! {

/// A decoded instruction: the closed set of variants the template tables can
/// produce, each holding its own semantically-typed fields.
#[derive(Clone, Copy, Debug, PartialEq, Eq, Structural)]
#[allow(inconsistent_fields)]
pub enum Insn {
    /// Register-list push: `urlist` selects the saved-register list and
    /// `spimm` scales the stack adjustment.
    CmPush { urlist: u16, spimm: u16 },
    /// Bit-field insert: destination register, immediate, shift and width.
    Insbi { rd: u8, imm: u8, shift: u8, width: u8 },
    /// Extended load-immediate: destination register and a 32-bit immediate.
    XqciELi { rd: u8, imm: u32 },
    /// Placeholder for one illustrative 64-bit encoding with no fields.
    Fake64,
}

} // verus!
