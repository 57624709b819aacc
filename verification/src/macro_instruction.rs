//! The abstract operations that the planner reads ahead in.
use vstd::prelude::*;
use crate::variable::{Variable, VariableView};

verus! {

/// One operation of the instruction stream. The position of an instruction
/// in the stream is its distance: 0 is what happens next.
#[derive(Debug)]
pub enum MacroInstruction {
    /// Declare a variable exists and potentially reserve space on the stack/heap.
    DeclareVariable(Variable),
    DestroyVariable(Variable),
    UseVariableAsArgument(Variable, usize),
    CallFunction(String, usize),
    GetArgument(usize),
}

/// The mathematical value of a [`MacroInstruction`].
pub enum InstructionView {
    DeclareVariable(VariableView),
    DestroyVariable(VariableView),
    UseVariableAsArgument(VariableView, usize),
    CallFunction(Seq<char>, usize),
    GetArgument(usize),
}

impl View for MacroInstruction {
    type V = InstructionView;

    open spec fn view(&self) -> InstructionView {
        match self {
            MacroInstruction::DeclareVariable(variable) => InstructionView::DeclareVariable(variable@),
            MacroInstruction::DestroyVariable(variable) => InstructionView::DestroyVariable(variable@),
            MacroInstruction::UseVariableAsArgument(variable, slot) => InstructionView::UseVariableAsArgument(
                variable@,
                *slot,
            ),
            MacroInstruction::CallFunction(name, argument_count) => InstructionView::CallFunction(
                name@,
                *argument_count,
            ),
            MacroInstruction::GetArgument(slot) => InstructionView::GetArgument(*slot),
        }
    }
}

impl Clone for MacroInstruction {
    fn clone(&self) -> (res: Self)
        ensures
            res@ == self@,
    {
        match self {
            MacroInstruction::DeclareVariable(variable) => MacroInstruction::DeclareVariable(variable.clone()),
            MacroInstruction::DestroyVariable(variable) => MacroInstruction::DestroyVariable(variable.clone()),
            MacroInstruction::UseVariableAsArgument(variable, slot) => MacroInstruction::UseVariableAsArgument(
                variable.clone(),
                *slot,
            ),
            MacroInstruction::CallFunction(name, argument_count) => MacroInstruction::CallFunction(
                name.clone(),
                *argument_count,
            ),
            MacroInstruction::GetArgument(slot) => MacroInstruction::GetArgument(*slot),
        }
    }
}

/// The mathematical value of an instruction stream.
pub open spec fn stream_view(instructions: Seq<MacroInstruction>) -> Seq<InstructionView> {
    instructions.map_values(|i: MacroInstruction| i@)
}

} // verus!
