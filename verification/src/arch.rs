//! The general definition and layout of every architecture.
use vstd::prelude::*;
use crate::macro_instruction::MacroInstruction;

verus! {

/// What the planner and the emitters need to know of a target.
pub trait Arch {
    /// The full name of the architecture, as `name` returns it.
    spec fn full_name(&self) -> Seq<char>;

    /// The width of the largest register, as `architecture_bits` returns it.
    spec fn register_width(&self) -> u8;

    /// Get the full name of the architecture (like "aarch64-MacOS").
    fn name(&self) -> (res: String)
        ensures
            res@ == self.full_name(),
    ;

    /// The amount of bits of the "largest" register.
    fn architecture_bits(&self) -> (res: u8)
        ensures
            res == self.register_width(),
    ;

    /// Generate assembly from the macro instructions in the given instruction set.
    fn generate_assembly(&self, macro_instructions: Vec<MacroInstruction>) -> String;
}

} // verus!
