//! The location planner: decides where every live variable is placed next
//! and emits the code that moves the data there.
//!
//! The planner works in four phases. Demand inference finds for every
//! variable the location that the upcoming instructions ask for, and how
//! soon. Physical assignment serves these demands soonest first from the
//! registers that are left, and sends what does not fit to the stack. Spill
//! emission stores the registers of the variables that went to the stack.
//! Register reconciliation moves every variable that changed its register.
use vstd::prelude::*;
use crate::data_position::{DataPosition, PositionView};
use crate::macro_instruction::{stream_view, InstructionView, MacroInstruction};
use crate::register::{first_tagged, find_tagged, lemma_tagged_exists, table_view, table_wf, Register, RegisterTag, RegisterView};
use crate::variable::{Variable, VariableView};
use crate::variable_manager::assignment::{assign, assign_registers, lemma_assign_shape, Outcome};
use crate::variable_manager::counting::{general_purpose_count, lemma_new_slots, new_slots};
use crate::variable_manager::demand::{
    agenda,
    collect_demands,
    demands_view,
    destroyed_at_once,
    lemma_agenda,
    lemma_live_variables,
    live_variables,
    retain_live,
    variables_view,
    Demand,
    DemandView,
};
use crate::variable_manager::shuffle::{
    lemma_shuffle_variables,
    moves_view,
    placements_view,
    shuffle,
    shuffle_registers,
    Move,
    MoveView,
    Placement,
    PlacementView,
};
use crate::variable_manager::spill::{collect_stores, emit_stores, stores, stores_text};

pub mod assignment;
pub mod checked;
pub mod counting;
pub mod demand;
pub mod laws;
pub mod machine;
pub mod shuffle;
pub mod spill;

verus! {

/// What `variable` becomes by the outcome of its demand, before the
/// registers are reconciled.
///
/// A variable that claimed a register and has no value anywhere yet is at
/// that register. One that has its value in another register is moved by
/// the reconciliation, and one that has its value in memory keeps its
/// locations: no load is emitted for it.
pub open spec fn settled(variable: VariableView, outcome: Outcome, table: Seq<RegisterView>) -> VariableView {
    match outcome {
        Outcome::Kept => variable,
        Outcome::Claimed(r) => if variable.holds_no_value() {
            variable.moved_to(PositionView::Register(table[r as int].name))
        } else {
            variable
        },
        Outcome::Collapsed => variable.collapsed(),
        Outcome::Spilled(offset) => variable.moved_to(PositionView::StackOffset(offset)),
    }
}

/// The live variables after the outcomes of the first `n` demands of the
/// agenda have been recorded.
pub open spec fn settle(
    live: Seq<VariableView>,
    agenda: Seq<DemandView>,
    outcomes: Seq<Outcome>,
    table: Seq<RegisterView>,
    n: int,
) -> Seq<VariableView>
    decreases n,
{
    if n <= 0 {
        live
    } else {
        settle(live, agenda, outcomes, table, n - 1).update(
            agenda[n - 1].variable,
            settled(live[agenda[n - 1].variable], outcomes[n - 1], table),
        )
    }
}

/// The moves that the first `n` demands of the agenda ask for: one for
/// each variable that claimed a register and has its value in another, in
/// the order of the agenda.
pub open spec fn moves(
    live: Seq<VariableView>,
    agenda: Seq<DemandView>,
    outcomes: Seq<Outcome>,
    table: Seq<RegisterView>,
    n: int,
) -> Seq<MoveView>
    decreases n,
{
    if n <= 0 {
        Seq::empty()
    } else {
        let rest = moves(live, agenda, outcomes, table, n - 1);
        match outcomes[n - 1] {
            Outcome::Claimed(r) => match live[agenda[n - 1].variable].value_register() {
                Some(source) => if source != table[r as int].name {
                    rest.push(MoveView { variable: agenda[n - 1].variable, source, target: table[r as int].name })
                } else {
                    rest
                },
                None => rest,
            },
            _ => rest,
        }
    }
}

/// The variables after the first `n` placements have been recorded: each
/// placed variable is at its register and nowhere else.
pub open spec fn place(variables: Seq<VariableView>, placed: Seq<PlacementView>, n: int) -> Seq<VariableView>
    decreases n,
{
    if n <= 0 {
        variables
    } else {
        let before = place(variables, placed, n - 1);
        before.update(
            placed[n - 1].variable,
            before[placed[n - 1].variable].moved_to(PositionView::Register(placed[n - 1].register)),
        )
    }
}

/// The name of the scratch register of `table`.
pub open spec fn scratch_name(table: Seq<RegisterView>) -> Seq<char> {
    table[first_tagged(table, RegisterTag::Scratch).unwrap()].name
}

/// What the planner does to its surroundings.
pub struct Plan {
    /// The variables that are alive after the pass, each at its new locations.
    pub variables: Seq<VariableView>,
    /// The stack-frame offset after the pass.
    pub stack_offset: int,
    /// The assembly text that takes the machine from the old locations to the new.
    pub text: Seq<char>,
}

/// The plan for `variables` with the registers `table`, the upcoming
/// instructions `stream` and the stack frame at `stack_offset`.
pub open spec fn plan(
    variables: Seq<VariableView>,
    table: Seq<RegisterView>,
    stream: Seq<InstructionView>,
    stack_offset: int,
) -> Plan {
    let live = live_variables(variables, stream);
    let agenda = agenda(live, table, stream);
    let assignment = assign(table, live, agenda, stack_offset, agenda.len() as int);
    let stores = stores(live, agenda, assignment.outcomes, agenda.len() as int);
    let moves = moves(live, agenda, assignment.outcomes, table, agenda.len() as int);
    let shuffled = shuffle(moves, scratch_name(table));
    let settled = settle(live, agenda, assignment.outcomes, table, agenda.len() as int);
    Plan {
        variables: place(settled, shuffled.placed, shuffled.placed.len() as int),
        stack_offset: assignment.stack_offset,
        text: stores_text(stores) + shuffled.text(),
    }
}

/// Whether every register in which a variable has its value is a register
/// of the table.
pub open spec fn registers_known(variables: Seq<VariableView>, table: Seq<RegisterView>) -> bool {
    forall|i: int|
        0 <= i < variables.len() ==> ((#[trigger] variables[i]).value_register() matches Some(name) ==> exists|
            r: int,
        |
            0 <= r < table.len() && (#[trigger] table[r]).name == name)
}

/// Whether the cost of every location of every variable can be held in a `usize`.
pub open spec fn costs_fit(variables: Seq<VariableView>) -> bool {
    forall|i: int| 0 <= i < variables.len() ==> (#[trigger] variables[i]).costs_fit()
}

/// Every move that the demands ask for names a live variable.
pub proof fn lemma_moves(
    live: Seq<VariableView>,
    agenda: Seq<DemandView>,
    outcomes: Seq<Outcome>,
    table: Seq<RegisterView>,
    n: int,
)
    requires
        0 <= n <= agenda.len(),
        forall|k: int| 0 <= k < agenda.len() ==> 0 <= (#[trigger] agenda[k]).variable < live.len(),
    ensures
        forall|k: int|
            0 <= k < moves(live, agenda, outcomes, table, n).len() ==> 0 <= (#[trigger] moves(
                live,
                agenda,
                outcomes,
                table,
                n,
            )[k]).variable < live.len(),
    decreases n,
{
    if n > 0 {
        lemma_moves(live, agenda, outcomes, table, n - 1);
        let rest = moves(live, agenda, outcomes, table, n - 1);
        let all = moves(live, agenda, outcomes, table, n);
        assert forall|k: int| 0 <= k < all.len() implies 0 <= (#[trigger] all[k]).variable < live.len() by {
            if k < rest.len() {
                assert(all[k] == rest[k]);
            } else {
                assert(all[k].variable == agenda[n - 1].variable);
            }
        }
    }
}

/// Recording outcomes keeps the name of every variable.
pub proof fn lemma_settle_names(
    live: Seq<VariableView>,
    agenda: Seq<DemandView>,
    outcomes: Seq<Outcome>,
    table: Seq<RegisterView>,
    n: int,
)
    requires
        0 <= n <= agenda.len(),
        forall|k: int| 0 <= k < agenda.len() ==> 0 <= (#[trigger] agenda[k]).variable < live.len(),
    ensures
        settle(live, agenda, outcomes, table, n).len() == live.len(),
        forall|i: int|
            0 <= i < live.len() ==> (#[trigger] settle(live, agenda, outcomes, table, n)[i]).full_name
                == live[i].full_name,
    decreases n,
{
    if n > 0 {
        lemma_settle_names(live, agenda, outcomes, table, n - 1);
    }
}

/// Recording placements keeps the name of every variable.
pub proof fn lemma_place_names(variables: Seq<VariableView>, placed: Seq<PlacementView>, n: int)
    requires
        0 <= n <= placed.len(),
        forall|k: int| 0 <= k < placed.len() ==> 0 <= (#[trigger] placed[k]).variable < variables.len(),
    ensures
        place(variables, placed, n).len() == variables.len(),
        forall|i: int|
            0 <= i < variables.len() ==> (#[trigger] place(variables, placed, n)[i]).full_name
                == variables[i].full_name,
    decreases n,
{
    if n > 0 {
        lemma_place_names(variables, placed, n - 1);
    }
}

/// The planned variables are the live variables, one for one and under
/// their names: a variable that is destroyed at distance 0 is not among them.
pub proof fn lemma_plan_names(
    variables: Seq<VariableView>,
    table: Seq<RegisterView>,
    stream: Seq<InstructionView>,
    stack_offset: int,
)
    ensures
        plan(variables, table, stream, stack_offset).variables.len() == live_variables(variables, stream).len(),
        forall|i: int|
            0 <= i < live_variables(variables, stream).len() ==> (#[trigger] plan(
                variables,
                table,
                stream,
                stack_offset,
            ).variables[i]).full_name == live_variables(variables, stream)[i].full_name,
        forall|i: int|
            0 <= i < plan(variables, table, stream, stack_offset).variables.len() ==> !destroyed_at_once(
                stream,
                (#[trigger] plan(variables, table, stream, stack_offset).variables[i]).full_name,
            ),
{
    let live = live_variables(variables, stream);
    let agenda = agenda(live, table, stream);
    let assignment = assign(table, live, agenda, stack_offset, agenda.len() as int);
    let moves = moves(live, agenda, assignment.outcomes, table, agenda.len() as int);
    let shuffled = shuffle(moves, scratch_name(table));
    let settled = settle(live, agenda, assignment.outcomes, table, agenda.len() as int);
    lemma_live_variables(variables, stream);
    lemma_agenda(live, table, stream);
    lemma_settle_names(live, agenda, assignment.outcomes, table, agenda.len() as int);
    lemma_moves(live, agenda, assignment.outcomes, table, agenda.len() as int);
    lemma_shuffle_variables(moves, scratch_name(table), live.len() as int);
    lemma_place_names(settled, shuffled.placed, shuffled.placed.len() as int);
}

/// Whether `outcome` makes `variable` change its register: it claims a
/// register and has its value in another.
pub open spec fn is_mover(variable: VariableView, outcome: Outcome, table: Seq<RegisterView>) -> bool {
    outcome matches Outcome::Claimed(r) && variable.value_register() matches Some(source) && source
        != table[r as int].name
}

/// A variable whose demands do not make it change its register is not
/// among the moves.
pub proof fn lemma_moves_spare(
    live: Seq<VariableView>,
    agenda: Seq<DemandView>,
    outcomes: Seq<Outcome>,
    table: Seq<RegisterView>,
    n: int,
    variable: int,
)
    requires
        0 <= n <= agenda.len(),
        forall|k: int|
            0 <= k < n && (#[trigger] agenda[k]).variable == variable ==> !is_mover(live[variable], outcomes[k], table),
    ensures
        forall|j: int|
            0 <= j < moves(live, agenda, outcomes, table, n).len() ==> (#[trigger] moves(
                live,
                agenda,
                outcomes,
                table,
                n,
            )[j]).variable != variable,
    decreases n,
{
    if n > 0 {
        lemma_moves_spare(live, agenda, outcomes, table, n - 1, variable);
        let rest = moves(live, agenda, outcomes, table, n - 1);
        let all = moves(live, agenda, outcomes, table, n);
        assert forall|j: int| 0 <= j < all.len() implies (#[trigger] all[j]).variable != variable by {
            if j < rest.len() {
                assert(all[j] == rest[j]);
            } else {
                assert(all[j].variable == agenda[n - 1].variable);
                assert(is_mover(live[agenda[n - 1].variable], outcomes[n - 1], table));
            }
        }
    }
}

/// After the outcomes have been recorded, the variable of every demand is
/// what its outcome makes of it, and a variable without a demand is as it was.
pub proof fn lemma_settle_at(
    live: Seq<VariableView>,
    agenda: Seq<DemandView>,
    outcomes: Seq<Outcome>,
    table: Seq<RegisterView>,
    n: int,
)
    requires
        0 <= n <= agenda.len(),
        forall|k: int| 0 <= k < agenda.len() ==> 0 <= (#[trigger] agenda[k]).variable < live.len(),
        crate::variable_manager::demand::has_distinct_variables(agenda),
    ensures
        settle(live, agenda, outcomes, table, n).len() == live.len(),
        forall|k: int|
            0 <= k < n ==> settle(live, agenda, outcomes, table, n)[(#[trigger] agenda[k]).variable] == settled(
                live[agenda[k].variable],
                outcomes[k],
                table,
            ),
        forall|v: int|
            0 <= v < live.len() && (forall|k: int| 0 <= k < n ==> (#[trigger] agenda[k]).variable != v) ==> (#[trigger] settle(
                live,
                agenda,
                outcomes,
                table,
                n,
            )[v]) == live[v],
    decreases n,
{
    if n > 0 {
        lemma_settle_at(live, agenda, outcomes, table, n - 1);
        let before = settle(live, agenda, outcomes, table, n - 1);
        let after = settle(live, agenda, outcomes, table, n);
        assert forall|k: int| 0 <= k < n implies after[(#[trigger] agenda[k]).variable] == settled(
            live[agenda[k].variable],
            outcomes[k],
            table,
        ) by {
            if k < n - 1 {
                assert(agenda[k].variable != agenda[n - 1].variable);
            }
        }
        assert forall|v: int|
            0 <= v < live.len() && (forall|k: int| 0 <= k < n ==> (#[trigger] agenda[k]).variable != v) implies (#[trigger] after[v])
            == live[v] by {
            assert(agenda[n - 1].variable != v);
            assert(before[v] == live[v]);
        }
    }
}

/// A variable that is not placed is after the placements as it was before.
pub proof fn lemma_place_spares(variables: Seq<VariableView>, placed: Seq<PlacementView>, n: int, variable: int)
    requires
        0 <= n <= placed.len(),
        0 <= variable < variables.len(),
        forall|k: int| 0 <= k < placed.len() ==> 0 <= (#[trigger] placed[k]).variable < variables.len(),
        forall|k: int| 0 <= k < n ==> (#[trigger] placed[k]).variable != variable,
    ensures
        place(variables, placed, n)[variable] == variables[variable],
    decreases n,
{
    if n > 0 {
        lemma_place_spares(variables, placed, n - 1, variable);
        lemma_place_names(variables, placed, n - 1);
    }
}

/// A live variable whose demand does not make it change its register is
/// in the plan what the outcome of its demand makes of it.
pub proof fn lemma_plan_of_resting_variable(
    variables: Seq<VariableView>,
    table: Seq<RegisterView>,
    stream: Seq<InstructionView>,
    stack_offset: int,
    k: int,
)
    requires
        0 <= k < agenda(live_variables(variables, stream), table, stream).len(),
        !is_mover(
            live_variables(variables, stream)[agenda(live_variables(variables, stream), table, stream)[k].variable],
            assign(
                table,
                live_variables(variables, stream),
                agenda(live_variables(variables, stream), table, stream),
                stack_offset,
                agenda(live_variables(variables, stream), table, stream).len() as int,
            ).outcomes[k],
            table,
        ),
    ensures
        ({
            let live = live_variables(variables, stream);
            let agenda = agenda(live, table, stream);
            let outcomes = assign(table, live, agenda, stack_offset, agenda.len() as int).outcomes;
            plan(variables, table, stream, stack_offset).variables[agenda[k].variable] == settled(
                live[agenda[k].variable],
                outcomes[k],
                table,
            )
        }),
{
    let live = live_variables(variables, stream);
    let agenda = agenda(live, table, stream);
    let n = agenda.len() as int;
    let outcomes = assign(table, live, agenda, stack_offset, n).outcomes;
    let v = agenda[k].variable;
    let moves = moves(live, agenda, outcomes, table, n);
    let shuffled = shuffle(moves, scratch_name(table));
    let settled = settle(live, agenda, outcomes, table, n);
    lemma_agenda(live, table, stream);
    lemma_settle_at(live, agenda, outcomes, table, n);
    assert forall|j: int| 0 <= j < n && (#[trigger] agenda[j]).variable == v implies !is_mover(live[v], outcomes[j], table) by {
        if j < k {
            assert(agenda[j].variable != agenda[k].variable);
        } else if k < j {
            assert(agenda[k].variable != agenda[j].variable);
        }
    }
    lemma_moves_spare(live, agenda, outcomes, table, n, v);
    lemma_moves(live, agenda, outcomes, table, n);
    crate::variable_manager::shuffle::lemma_shuffle_spares(moves, scratch_name(table), v);
    lemma_shuffle_variables(moves, scratch_name(table), live.len() as int);
    lemma_place_spares(settled, shuffled.placed, shuffled.placed.len() as int, v);
}

/// What `variable` becomes by the outcome of its demand.
fn settle_variable(variable: &Variable, outcome: Outcome, registers: &Vec<Register>) -> (res: Variable)
    requires
        variable.costs_fit(),
        outcome matches Outcome::Claimed(r) ==> r < registers.len(),
    ensures
        res@ == settled(variable@, outcome, table_view(registers@)),
{
    match outcome {
        Outcome::Kept => variable.clone(),
        Outcome::Claimed(r) => {
            assert(table_view(registers@)[r as int] == registers[r as int]@);
            if variable.holds_no_value() {
                let mut positions: Vec<DataPosition> = Vec::new();
                positions.push(DataPosition::Register(registers[r].name.clone()));
                let moved = Variable::new(variable.full_name.clone(), positions);
                assert(moved@.positions =~= seq![PositionView::Register(registers[r as int]@.name)]);
                moved
            } else {
                variable.clone()
            }
        },
        Outcome::Collapsed => {
            let mut collapsed = variable.clone();
            collapsed.remove_everything_except_stack_position();
            collapsed
        },
        Outcome::Spilled(offset) => {
            let mut positions: Vec<DataPosition> = Vec::new();
            positions.push(DataPosition::StackOffset(offset));
            let moved = Variable::new(variable.full_name.clone(), positions);
            assert(moved@.positions =~= seq![PositionView::StackOffset(offset)]);
            moved
        },
    }
}

/// Records the outcome of every demand of the agenda in a copy of `live`.
fn settle_variables(live: &Vec<Variable>, agenda: &Vec<Demand>, outcomes: &Vec<Outcome>, registers: &Vec<Register>) -> (res:
    Vec<Variable>)
    requires
        outcomes.len() == agenda.len(),
        forall|k: int| 0 <= k < agenda.len() ==> (#[trigger] agenda[k]).variable < live.len(),
        forall|k: int|
            0 <= k < outcomes.len() ==> ((#[trigger] outcomes[k]) matches Outcome::Claimed(r) ==> r
                < registers.len()),
        costs_fit(variables_view(live@)),
    ensures
        variables_view(res@) == settle(
            variables_view(live@),
            demands_view(agenda@),
            outcomes@,
            table_view(registers@),
            agenda.len() as int,
        ),
        res.len() == live.len(),
{
    let ghost all = variables_view(live@);
    let ghost entries = demands_view(agenda@);
    let ghost table = table_view(registers@);
    let mut res: Vec<Variable> = Vec::new();
    let mut i: usize = 0;
    while i < live.len()
        invariant
            i <= live.len(),
            res.len() == i,
            forall|j: int| 0 <= j < i ==> (#[trigger] res[j])@ == live[j]@,
        decreases live.len() - i,
    {
        res.push(live[i].clone());
        i += 1;
    }
    assert(variables_view(res@) =~= all);
    let mut k: usize = 0;
    while k < agenda.len()
        invariant
            k <= agenda.len(),
            outcomes.len() == agenda.len(),
            res.len() == live.len(),
            all == variables_view(live@),
            entries == demands_view(agenda@),
            table == table_view(registers@),
            forall|j: int| 0 <= j < agenda.len() ==> (#[trigger] agenda[j]).variable < live.len(),
            forall|j: int|
                0 <= j < outcomes.len() ==> ((#[trigger] outcomes[j]) matches Outcome::Claimed(r) ==> r
                    < registers.len()),
            costs_fit(all),
            variables_view(res@) == settle(all, entries, outcomes@, table, k as int),
        decreases agenda.len() - k,
    {
        let v = agenda[k].variable;
        let ghost before = variables_view(res@);
        proof {
            assert(entries[k as int] == agenda[k as int]@);
            assert(all[v as int] == live[v as int]@);
            assert(all[v as int].costs_fit());
        }
        let after = settle_variable(&live[v], outcomes[k], registers);
        res.set(v, after);
        assert(variables_view(res@) =~= before.update(v as int, settled(all[v as int], outcomes[k as int], table)));
        k += 1;
    }
    res
}

/// The moves that the demands of the agenda ask for.
fn collect_moves(live: &Vec<Variable>, agenda: &Vec<Demand>, outcomes: &Vec<Outcome>, registers: &Vec<Register>) -> (res:
    Vec<Move>)
    requires
        outcomes.len() == agenda.len(),
        forall|k: int| 0 <= k < agenda.len() ==> (#[trigger] agenda[k]).variable < live.len(),
        forall|k: int|
            0 <= k < outcomes.len() ==> ((#[trigger] outcomes[k]) matches Outcome::Claimed(r) ==> r
                < registers.len()),
        costs_fit(variables_view(live@)),
    ensures
        moves_view(res@) == moves(
            variables_view(live@),
            demands_view(agenda@),
            outcomes@,
            table_view(registers@),
            agenda.len() as int,
        ),
{
    let ghost all = variables_view(live@);
    let ghost entries = demands_view(agenda@);
    let ghost table = table_view(registers@);
    let mut res: Vec<Move> = Vec::new();
    let mut k: usize = 0;
    assert(moves_view(res@) =~= Seq::empty());
    while k < agenda.len()
        invariant
            k <= agenda.len(),
            outcomes.len() == agenda.len(),
            all == variables_view(live@),
            entries == demands_view(agenda@),
            table == table_view(registers@),
            forall|j: int| 0 <= j < agenda.len() ==> (#[trigger] agenda[j]).variable < live.len(),
            forall|j: int|
                0 <= j < outcomes.len() ==> ((#[trigger] outcomes[j]) matches Outcome::Claimed(r) ==> r
                    < registers.len()),
            costs_fit(all),
            moves_view(res@) == moves(all, entries, outcomes@, table, k as int),
        decreases agenda.len() - k,
    {
        let v = agenda[k].variable;
        proof {
            assert(entries[k as int] == agenda[k as int]@);
            assert(all[v as int] == live[v as int]@);
            assert(all[v as int].costs_fit());
        }
        if let Outcome::Claimed(r) = outcomes[k] {
            assert(table[r as int] == registers[r as int]@);
            if let Some(source) = live[v].value_register() {
                if source != registers[r].name {
                    let ghost before = moves_view(res@);
                    let pending = Move { variable: v, source, target: registers[r].name.clone() };
                    res.push(pending);
                    assert(moves_view(res@) =~= before.push(pending@));
                }
            }
        }
        k += 1;
    }
    res
}

/// Records every placement in `variables`.
fn record_placements(variables: &mut Vec<Variable>, placed: &Vec<Placement>)
    requires
        forall|k: int| 0 <= k < placed.len() ==> (#[trigger] placed[k]).variable < old(variables).len(),
    ensures
        variables_view(final(variables)@) == place(
            variables_view(old(variables)@),
            placements_view(placed@),
            placed.len() as int,
        ),
        final(variables).len() == old(variables).len(),
{
    let ghost start = variables_view(variables@);
    let ghost all = placements_view(placed@);
    let mut k: usize = 0;
    while k < placed.len()
        invariant
            k <= placed.len(),
            variables.len() == old(variables).len(),
            start == variables_view(old(variables)@),
            all == placements_view(placed@),
            forall|j: int| 0 <= j < placed.len() ==> (#[trigger] placed[j]).variable < variables.len(),
            variables_view(variables@) == place(start, all, k as int),
        decreases placed.len() - k,
    {
        let v = placed[k].variable;
        let ghost before = variables_view(variables@);
        proof {
            assert(all[k as int] == placed[k as int]@);
            assert(before[v as int] == variables[v as int]@);
        }
        let mut positions: Vec<DataPosition> = Vec::new();
        positions.push(DataPosition::Register(placed[k].register.clone()));
        let moved = Variable::new(variables[v].full_name.clone(), positions);
        assert(moved@.positions =~= seq![PositionView::Register(all[k as int].register)]);
        variables.set(v, moved);
        assert(variables_view(variables@) =~= before.update(
            v as int,
            before[v as int].moved_to(PositionView::Register(all[k as int].register)),
        ));
        k += 1;
    }
}

/// Plans where every variable lives next and returns the assembly text
/// that takes the machine there, each instruction on its own line.
///
/// `variables` are the variables that are alive, each with the locations
/// that hold its value now; a variable may have none. `instructions` are
/// the instructions to come, the next one first. `stack_offset` is the
/// number of bytes of the stack frame that are in use.
///
/// Afterwards `variables` holds the variables that stay alive, in their
/// old order, each at the location that was decided for it; variables that
/// the first instruction destroys are gone. `stack_offset` has grown by 8
/// for every variable that got a new stack slot: the slots are numbered
/// from the old offset in steps of 8, and there are no more of them than
/// there are more variables than general-purpose registers. The text first
/// stores the registers of the variables that went to the stack, then
/// moves the variables that changed their register.
///
/// The table must have a scratch register, and a variable must not have
/// its value in a register that the table does not know.
pub fn order_variable_locations(
    variables: &mut Vec<Variable>,
    registers: Vec<Register>,
    instructions: Vec<MacroInstruction>,
    stack_offset: &mut usize,
) -> (code: String)
    requires
        table_wf(table_view(registers@)),
        costs_fit(variables_view(old(variables)@)),
        registers_known(variables_view(old(variables)@), table_view(registers@)),
        *old(stack_offset) + 8 * old(variables).len() <= usize::MAX,
    ensures
        variables_view(final(variables)@) == plan(
            variables_view(old(variables)@),
            table_view(registers@),
            stream_view(instructions@),
            *old(stack_offset) as int,
        ).variables,
        *final(stack_offset) == plan(
            variables_view(old(variables)@),
            table_view(registers@),
            stream_view(instructions@),
            *old(stack_offset) as int,
        ).stack_offset,
        code@ == plan(
            variables_view(old(variables)@),
            table_view(registers@),
            stream_view(instructions@),
            *old(stack_offset) as int,
        ).text,
        *old(stack_offset) <= *final(stack_offset),
        *final(stack_offset) == *old(stack_offset) + 8 * new_slots(
            variables_view(old(variables)@),
            table_view(registers@),
            stream_view(instructions@),
            *old(stack_offset) as int,
        ).len(),
        forall|i: int|
            0 <= i < new_slots(
                variables_view(old(variables)@),
                table_view(registers@),
                stream_view(instructions@),
                *old(stack_offset) as int,
            ).len() ==> #[trigger] new_slots(
                variables_view(old(variables)@),
                table_view(registers@),
                stream_view(instructions@),
                *old(stack_offset) as int,
            )[i] == *old(stack_offset) + 8 * i,
        forall|i: int, j: int|
            0 <= i < j < new_slots(
                variables_view(old(variables)@),
                table_view(registers@),
                stream_view(instructions@),
                *old(stack_offset) as int,
            ).len() ==> (#[trigger] new_slots(
                variables_view(old(variables)@),
                table_view(registers@),
                stream_view(instructions@),
                *old(stack_offset) as int,
            )[i]) < (#[trigger] new_slots(
                variables_view(old(variables)@),
                table_view(registers@),
                stream_view(instructions@),
                *old(stack_offset) as int,
            )[j]),
        new_slots(
            variables_view(old(variables)@),
            table_view(registers@),
            stream_view(instructions@),
            *old(stack_offset) as int,
        ).len() > 0 ==> new_slots(
            variables_view(old(variables)@),
            table_view(registers@),
            stream_view(instructions@),
            *old(stack_offset) as int,
        ).len() + general_purpose_count(table_view(registers@), registers.len() as int) <= old(variables).len(),
        final(variables).len() <= old(variables).len(),
        forall|i: int|
            0 <= i < final(variables).len() ==> !destroyed_at_once(
                stream_view(instructions@),
                (#[trigger] final(variables)[i])@.full_name,
            ),
{
    let ghost table = table_view(registers@);
    let ghost stream = stream_view(instructions@);
    let ghost start = *stack_offset as int;
    assert(forall|i: int| 0 <= i < variables.len() ==> (#[trigger] variables[i]).costs_fit()) by {
        assert forall|i: int| 0 <= i < variables.len() implies (#[trigger] variables[i]).costs_fit() by {
            assert(variables_view(variables@)[i] == variables[i]@);
        }
    }
    let live = retain_live(variables, &instructions);
    let ghost alive = variables_view(live@);
    proof {
        lemma_new_slots(variables_view(variables@), table, stream, start);
        lemma_live_variables(variables_view(variables@), stream);
        assert(costs_fit(alive)) by {
            assert forall|i: int| 0 <= i < alive.len() implies (#[trigger] alive[i]).costs_fit() by {
                assert(alive[i] == live[i]@);
            }
        }
    }
    let agenda = collect_demands(&live, &registers, &instructions);
    let ghost entries = demands_view(agenda@);
    proof {
        lemma_agenda(alive, table, stream);
        assert forall|k: int| 0 <= k < agenda.len() implies (#[trigger] agenda[k]).variable < live.len() by {
            assert(entries[k] == agenda[k]@);
        }
        lemma_assign_shape(table, alive, entries, start, entries.len() as int);
    }
    let outcomes = assign_registers(&live, &registers, &agenda, stack_offset);
    let mut code = String::new();
    let stores = collect_stores(&live, &agenda, &outcomes);
    emit_stores(&mut code, &stores);
    let mut settled = settle_variables(&live, &agenda, &outcomes, &registers);
    let moves = collect_moves(&live, &agenda, &outcomes, &registers);
    proof {
        lemma_tagged_exists(table, RegisterTag::Scratch);
    }
    let s = find_tagged(&registers, RegisterTag::Scratch).unwrap();
    assert(table[s as int] == registers[s as int]@);
    let scratch = registers[s].name.clone();
    let placed = shuffle_registers(&mut code, moves, &scratch);
    proof {
        assert forall|k: int| 0 <= k < entries.len() implies 0 <= (#[trigger] entries[k]).variable < alive.len() by {
            assert(entries[k] == agenda[k]@);
        }
        lemma_moves(alive, entries, outcomes@, table, entries.len() as int);
        lemma_shuffle_variables(moves_view(moves@), scratch@, alive.len() as int);
        assert forall|k: int| 0 <= k < placed.len() implies (#[trigger] placed[k]).variable < settled.len() by {
            assert(placements_view(placed@)[k] == placed[k]@);
        }
    }
    record_placements(&mut settled, &placed);
    proof {
        assert forall|i: int| 0 <= i < settled.len() implies !destroyed_at_once(
            stream,
            (#[trigger] settled[i])@.full_name,
        ) by {
            lemma_plan_names(variables_view(variables@), table, stream, start);
            assert(variables_view(settled@)[i] == settled[i]@);
        }
        assert(code@ =~= stores_text(crate::variable_manager::spill::stores_view(stores@)) + shuffle(
            moves_view(moves@),
            scratch@,
        ).text());
    }
    *variables = settled;
    code
}

/// Finds a place for a variable that is about to be declared.
///
/// Nothing is decided here: the variable keeps the locations it came
/// with, and `order_variable_locations` places it with the others.
pub fn find_place_for_variable(
    variable: &mut Variable,
    size: usize,
    other_variables: Vec<Variable>,
    instructions: Vec<MacroInstruction>,
)
    ensures
        *final(variable) == *old(variable),
{
}

} // verus!
