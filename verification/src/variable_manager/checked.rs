//! The planner for callers that cannot show beforehand that their input
//! can be planned for: the input is tested first.
use vstd::prelude::*;
use crate::macro_instruction::{stream_view, MacroInstruction};
use crate::register::{is_well_formed, table_view, table_wf, Register};
use crate::variable::Variable;
use crate::variable_manager::counting::{general_purpose_count, new_slots};
use crate::variable_manager::demand::variables_view;
use crate::variable_manager::{costs_fit, order_variable_locations, plan, registers_known};

verus! {

/// Why an input cannot be planned for.
#[derive(Clone, Copy, Debug, PartialEq, Eq, Structural)]
pub enum PlanError {
    /// The register table breaks its invariant.
    MalformedTable,
    /// The cost of a location of a variable cannot be held in a `usize`.
    CostOverflow,
    /// A variable has its value in a register that the table does not know.
    UnknownRegister,
    /// The stack frame cannot take a slot for every variable.
    StackOverflow,
}

/// The reason for which the input cannot be planned for, if there is one.
/// Of several reasons the first one in the order of [`PlanError`] counts.
pub open spec fn plan_error(
    variables: Seq<crate::variable::VariableView>,
    table: Seq<crate::register::RegisterView>,
    stack_offset: int,
) -> Option<PlanError> {
    if !table_wf(table) {
        Some(PlanError::MalformedTable)
    } else if !costs_fit(variables) {
        Some(PlanError::CostOverflow)
    } else if !registers_known(variables, table) {
        Some(PlanError::UnknownRegister)
    } else if stack_offset + 8 * variables.len() > usize::MAX {
        Some(PlanError::StackOverflow)
    } else {
        None
    }
}

/// Whether the cost of every location of every variable can be held in a `usize`.
fn have_fitting_costs(variables: &Vec<Variable>) -> (res: bool)
    ensures
        res == costs_fit(variables_view(variables@)),
{
    let ghost all = variables_view(variables@);
    let mut i: usize = 0;
    while i < variables.len()
        invariant
            i <= variables.len(),
            all == variables_view(variables@),
            forall|j: int| 0 <= j < i ==> (#[trigger] all[j]).costs_fit(),
        decreases variables.len() - i,
    {
        assert(all[i as int] == variables[i as int]@);
        if !variables[i].has_fitting_costs() {
            return false;
        }
        i += 1;
    }
    true
}

/// Whether the table has a register called `name`.
fn knows_register(registers: &Vec<Register>, name: &String) -> (res: bool)
    ensures
        res == exists|r: int|
            0 <= r < registers.len() && (#[trigger] table_view(registers@)[r]).name == name@,
{
    let ghost table = table_view(registers@);
    let mut r: usize = 0;
    while r < registers.len()
        invariant
            r <= registers.len(),
            table == table_view(registers@),
            forall|j: int| 0 <= j < r ==> (#[trigger] table[j]).name != name@,
        decreases registers.len() - r,
    {
        assert(table[r as int] == registers[r as int]@);
        if registers[r].name == *name {
            return true;
        }
        r += 1;
    }
    false
}

/// Whether every register in which a variable has its value is a register
/// of the table.
fn have_known_registers(variables: &Vec<Variable>, registers: &Vec<Register>) -> (res: bool)
    requires
        costs_fit(variables_view(variables@)),
    ensures
        res == registers_known(variables_view(variables@), table_view(registers@)),
{
    let ghost all = variables_view(variables@);
    let ghost table = table_view(registers@);
    let mut i: usize = 0;
    while i < variables.len()
        invariant
            i <= variables.len(),
            all == variables_view(variables@),
            table == table_view(registers@),
            costs_fit(all),
            forall|j: int|
                0 <= j < i ==> ((#[trigger] all[j]).value_register() matches Some(name) ==> exists|r: int|
                    0 <= r < table.len() && (#[trigger] table[r]).name == name),
        decreases variables.len() - i,
    {
        assert(all[i as int] == variables[i as int]@);
        assert(all[i as int].costs_fit());
        if let Some(name) = variables[i].value_register() {
            if !knows_register(registers, &name) {
                return false;
            }
        }
        i += 1;
    }
    true
}

/// Tests whether the input can be planned for, and plans as
/// `order_variable_locations` does if it can. If it cannot, nothing is
/// changed, and the error says why. Either way the stack-frame offset does
/// not decrease: it grows by 8 for every new slot, the slots are numbered
/// from the old offset in steps of 8, and there are no more of them than
/// there are more variables than general-purpose registers.
pub fn try_order_variable_locations(
    variables: &mut Vec<Variable>,
    registers: Vec<Register>,
    instructions: Vec<MacroInstruction>,
    stack_offset: &mut usize,
) -> (res: Result<String, PlanError>)
    ensures
        match res {
            Ok(code) => {
                &&& plan_error(
                    variables_view(old(variables)@),
                    table_view(registers@),
                    *old(stack_offset) as int,
                ) is None
                &&& variables_view(final(variables)@) == plan(
                    variables_view(old(variables)@),
                    table_view(registers@),
                    stream_view(instructions@),
                    *old(stack_offset) as int,
                ).variables
                &&& *final(stack_offset) == plan(
                    variables_view(old(variables)@),
                    table_view(registers@),
                    stream_view(instructions@),
                    *old(stack_offset) as int,
                ).stack_offset
                &&& code@ == plan(
                    variables_view(old(variables)@),
                    table_view(registers@),
                    stream_view(instructions@),
                    *old(stack_offset) as int,
                ).text
            },
            Err(error) => {
                &&& plan_error(
                    variables_view(old(variables)@),
                    table_view(registers@),
                    *old(stack_offset) as int,
                ) == Some(error)
                &&& *final(variables) == *old(variables)
                &&& *final(stack_offset) == *old(stack_offset)
            },
        },
        *old(stack_offset) <= *final(stack_offset),
        res is Ok ==> {
            let slots = new_slots(
                variables_view(old(variables)@),
                table_view(registers@),
                stream_view(instructions@),
                *old(stack_offset) as int,
            );
            &&& *final(stack_offset) == *old(stack_offset) + 8 * slots.len()
            &&& forall|i: int| 0 <= i < slots.len() ==> #[trigger] slots[i] == *old(stack_offset) + 8 * i
            &&& forall|i: int, j: int| 0 <= i < j < slots.len() ==> (#[trigger] slots[i]) < (#[trigger] slots[j])
            &&& slots.len() > 0 ==> slots.len() + general_purpose_count(
                table_view(registers@),
                registers.len() as int,
            ) <= old(variables).len()
        },
{
    if !is_well_formed(&registers) {
        return Err(PlanError::MalformedTable);
    }
    if !have_fitting_costs(variables) {
        return Err(PlanError::CostOverflow);
    }
    if !have_known_registers(variables, &registers) {
        return Err(PlanError::UnknownRegister);
    }
    let room = usize::MAX - *stack_offset;
    if variables.len() > room / 8 {
        return Err(PlanError::StackOverflow);
    }
    Ok(order_variable_locations(variables, registers, instructions, stack_offset))
}

} // verus!
