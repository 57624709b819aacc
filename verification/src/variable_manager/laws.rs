//! What holds of every plan.
use vstd::prelude::*;
use crate::data_position::PositionView;
use crate::macro_instruction::InstructionView;
use crate::register::RegisterView;
use crate::search::lemma_first_index;
use crate::variable::{is_cheapest_at, lemma_cheapest_of, VariableView};
use crate::variable_manager::assignment::{assign, first_unclaimed_named, lemma_assign_shape, Outcome};
use crate::variable_manager::demand::{
    agenda,
    demand,
    destroyed_at_once,
    lemma_agenda,
    lemma_live_variables,
    lemma_live_variables_fixed,
    lemma_next_use,
    live_variables,
    DemandView,
};
use crate::variable_manager::shuffle::{shuffle, MoveView};
use crate::variable_manager::spill::{stores, stores_text, StoreView};
use crate::variable_manager::{
    lemma_plan_names,
    lemma_plan_of_resting_variable,
    moves,
    plan,
    registers_known,
    scratch_name,
    settle,
};

verus! {

/// Whether `target` is a register of the table, and not the request for any.
pub open spec fn names_table_register(table: Seq<RegisterView>, target: PositionView) -> bool {
    target.holding_register() matches Some(name) && exists|r: int|
        0 <= r < table.len() && (#[trigger] table[r]).name == name
}

/// Whether the first `n` demands of the agenda do not stand in each
/// other's way: those for a register are for registers of the table, and no
/// two of them for the same.
pub open spec fn is_conflict_free(table: Seq<RegisterView>, agenda: Seq<DemandView>, n: int) -> bool {
    &&& forall|j: int, k: int|
        0 <= j < k < n && (#[trigger] agenda[j]).target is Register ==> agenda[j].target != (#[trigger] agenda[k]).target
    &&& forall|k: int|
        0 <= k < n && (#[trigger] agenda[k]).target is Register ==> names_table_register(table, agenda[k].target)
}

/// Whether `outcome` gives the demand `entry` what it asks for: a register
/// of the name that it wants, or nothing where it wants no register.
pub open spec fn is_served_as_asked(table: Seq<RegisterView>, entry: DemandView, outcome: Outcome) -> bool {
    match entry.target {
        PositionView::Register(name) => outcome matches Outcome::Claimed(r) && r < table.len() && table[r as int].name
            == name,
        _ => outcome == Outcome::Kept,
    }
}

/// Serving more demands does not change what became of the earlier ones.
pub proof fn lemma_assign_prefix(
    table: Seq<RegisterView>,
    live: Seq<VariableView>,
    agenda: Seq<DemandView>,
    stack_offset: int,
    n: int,
    m: int,
)
    requires
        0 <= n <= m <= agenda.len(),
    ensures
        assign(table, live, agenda, stack_offset, n).outcomes.len() == n,
        assign(table, live, agenda, stack_offset, m).outcomes.len() == m,
        forall|k: int|
            0 <= k < n ==> (#[trigger] assign(table, live, agenda, stack_offset, m).outcomes[k]) == assign(
                table,
                live,
                agenda,
                stack_offset,
                n,
            ).outcomes[k],
    decreases m - n,
{
    lemma_assign_shape(table, live, agenda, stack_offset, n);
    lemma_assign_shape(table, live, agenda, stack_offset, m);
    if n < m {
        lemma_assign_prefix(table, live, agenda, stack_offset, n, m - 1);
        lemma_assign_shape(table, live, agenda, stack_offset, m - 1);
    }
}

/// Demands that do not stand in each other's way are all served as asked:
/// every one for a register gets a register of that name, nothing is
/// spilled, and the stack-frame offset stays.
pub proof fn lemma_assign_conflict_free(
    table: Seq<RegisterView>,
    live: Seq<VariableView>,
    agenda: Seq<DemandView>,
    stack_offset: int,
    n: int,
)
    requires
        0 <= n <= agenda.len(),
        table.len() <= usize::MAX,
        is_conflict_free(table, agenda, n),
    ensures
        assign(table, live, agenda, stack_offset, n).stack_offset == stack_offset,
        assign(table, live, agenda, stack_offset, n).outcomes.len() == n,
        assign(table, live, agenda, stack_offset, n).claimed.len() == table.len(),
        forall|k: int|
            0 <= k < n ==> is_served_as_asked(
                table,
                agenda[k],
                #[trigger] assign(table, live, agenda, stack_offset, n).outcomes[k],
            ),
        forall|r: int|
            0 <= r < table.len() && #[trigger] assign(table, live, agenda, stack_offset, n).claimed[r] ==> exists|
                k: int,
            |
                0 <= k < n && (#[trigger] agenda[k]).target == PositionView::Register(table[r].name),
    decreases n,
{
    lemma_assign_shape(table, live, agenda, stack_offset, n);
    if n > 0 {
        lemma_assign_conflict_free(table, live, agenda, stack_offset, n - 1);
        lemma_assign_shape(table, live, agenda, stack_offset, n - 1);
        let before = assign(table, live, agenda, stack_offset, n - 1);
        let after = assign(table, live, agenda, stack_offset, n);
        let entry = agenda[n - 1];
        match entry.target {
            PositionView::Register(name) => {
                assert(names_table_register(table, entry.target));
                let unclaimed = |i: int| !before.claimed[i] && table[i].name == name;
                lemma_first_index(table.len() as int, unclaimed);
                if first_unclaimed_named(table, before.claimed, name) is None {
                    let r0 = choose|r: int| 0 <= r < table.len() && (#[trigger] table[r]).name == name;
                    assert(!unclaimed(r0));
                    assert(before.claimed[r0]);
                    let k = choose|k: int|
                        0 <= k < n - 1 && (#[trigger] agenda[k]).target == PositionView::Register(table[r0].name);
                    assert(agenda[k].target == agenda[n - 1].target);
                    assert(false);
                }
                let r = first_unclaimed_named(table, before.claimed, name).unwrap();
                assert(unclaimed(r));
                assert(after.outcomes[n - 1] == Outcome::Claimed(r as usize));
                assert forall|q: int| 0 <= q < table.len() && #[trigger] after.claimed[q] implies exists|k: int|
                    0 <= k < n && (#[trigger] agenda[k]).target == PositionView::Register(table[q].name) by {
                    if q == r {
                        assert(agenda[n - 1].target == PositionView::Register(table[q].name));
                    } else {
                        assert(before.claimed[q]);
                        let k = choose|k: int|
                            0 <= k < n - 1 && (#[trigger] agenda[k]).target == PositionView::Register(table[q].name);
                        assert(agenda[k].target == PositionView::Register(table[q].name));
                    }
                }
            },
            _ => {
                assert(after.outcomes[n - 1] == Outcome::Kept);
                assert(after.claimed == before.claimed);
            },
        }
        assert forall|k: int| 0 <= k < n implies is_served_as_asked(table, agenda[k], #[trigger] after.outcomes[k]) by {
            if k < n - 1 {
                assert(after.outcomes[k] == before.outcomes[k]);
            }
        }
    }
}

/// Whether `outcome` leaves nothing to do for `variable`: it stays as it
/// is, or gets the register in which it has its value.
pub open spec fn is_quiet(variable: VariableView, outcome: Outcome, table: Seq<RegisterView>) -> bool {
    match outcome {
        Outcome::Kept => true,
        Outcome::Claimed(r) => variable.value_register() == Some(table[r as int].name),
        _ => false,
    }
}

/// A variable that has its value in a register has a value.
pub proof fn lemma_value_register_holds_value(variable: VariableView)
    requires
        variable.value_register() is Some,
    ensures
        !variable.holds_no_value(),
{
    lemma_cheapest_of(variable.positions);
    let best = variable.cheapest().unwrap();
    let i = choose|i: int| #[trigger] is_cheapest_at(variable.positions, best, i);
    assert(!variable.positions[i].is_general_purpose_register());
}

/// Where every outcome leaves nothing to do, nothing is stored, nothing is
/// moved, and the variables stay as they are.
pub proof fn lemma_quiet_outcomes(
    live: Seq<VariableView>,
    agenda: Seq<DemandView>,
    outcomes: Seq<Outcome>,
    table: Seq<RegisterView>,
    n: int,
)
    requires
        0 <= n <= agenda.len(),
        n <= outcomes.len(),
        forall|k: int| 0 <= k < agenda.len() ==> 0 <= (#[trigger] agenda[k]).variable < live.len(),
        forall|k: int| 0 <= k < n ==> is_quiet(live[agenda[k].variable], #[trigger] outcomes[k], table),
    ensures
        stores(live, agenda, outcomes, n) == Seq::<StoreView>::empty(),
        moves(live, agenda, outcomes, table, n) == Seq::<MoveView>::empty(),
        settle(live, agenda, outcomes, table, n) == live,
    decreases n,
{
    if n > 0 {
        lemma_quiet_outcomes(live, agenda, outcomes, table, n - 1);
        let variable = live[agenda[n - 1].variable];
        assert(is_quiet(variable, outcomes[n - 1], table));
        if outcomes[n - 1] is Claimed {
            lemma_value_register_holds_value(variable);
        }
        assert(live.update(agenda[n - 1].variable, variable) =~= live);
    }
}

/// Whether every variable is where the instructions want it: one that is
/// asked for in a register has its value there, and no two are asked for
/// in the same register.
pub open spec fn is_at_targets(live: Seq<VariableView>, table: Seq<RegisterView>, stream: Seq<InstructionView>) -> bool {
    &&& forall|v: int|
        0 <= v < live.len() ==> (demand(#[trigger] live[v], table, stream) matches Some((target, _)) ==> (target matches PositionView::Register(
            name,
        ) ==> live[v].value_register() == Some(name)))
    &&& forall|u: int, v: int|
        0 <= u < v < live.len() ==> (demand(#[trigger] live[u], table, stream) matches Some((target, _)) ==> (target is Register
            ==> (demand(#[trigger] live[v], table, stream) matches Some((other, _)) ==> target != other)))
}

/// Planning for variables that are where the instructions want them emits
/// no instruction, leaves the stack-frame offset unchanged and keeps every
/// live variable as it is.
pub proof fn lemma_settled_variables_stay(
    variables: Seq<VariableView>,
    table: Seq<RegisterView>,
    stream: Seq<InstructionView>,
    stack_offset: int,
)
    requires
        table.len() <= usize::MAX,
        registers_known(variables, table),
        is_at_targets(live_variables(variables, stream), table, stream),
    ensures
        plan(variables, table, stream, stack_offset).text == Seq::<char>::empty(),
        plan(variables, table, stream, stack_offset).stack_offset == stack_offset,
        plan(variables, table, stream, stack_offset).variables == live_variables(variables, stream),
{
    let live = live_variables(variables, stream);
    let agenda = agenda(live, table, stream);
    let n = agenda.len() as int;
    lemma_live_variables(variables, stream);
    lemma_agenda(live, table, stream);
    assert(is_conflict_free(table, agenda, n)) by {
        assert forall|k: int| 0 <= k < n && (#[trigger] agenda[k]).target is Register implies names_table_register(
            table,
            agenda[k].target,
        ) by {
            let v = agenda[k].variable;
            assert(demand(live[v], table, stream) == Some((agenda[k].target, agenda[k].distance)));
            assert(variables.contains(live[v]));
            let i = choose|i: int| 0 <= i < variables.len() && variables[i] == live[v];
            assert(variables[i].value_register() is Some);
        }
        assert forall|j: int, k: int| 0 <= j < k < n && (#[trigger] agenda[j]).target is Register implies agenda[j].target
            != (#[trigger] agenda[k]).target by {
            let u = agenda[j].variable;
            let v = agenda[k].variable;
            assert(demand(live[u], table, stream) == Some((agenda[j].target, agenda[j].distance)));
            assert(demand(live[v], table, stream) == Some((agenda[k].target, agenda[k].distance)));
            if u < v {
                assert(agenda[j].target != agenda[k].target);
            } else {
                assert(v < u);
                if agenda[k].target is Register {
                    assert(agenda[k].target != agenda[j].target);
                }
            }
        }
    }
    lemma_assign_conflict_free(table, live, agenda, stack_offset, n);
    let outcomes = assign(table, live, agenda, stack_offset, n).outcomes;
    assert forall|k: int| 0 <= k < n implies is_quiet(live[agenda[k].variable], #[trigger] outcomes[k], table) by {
        let v = agenda[k].variable;
        assert(is_served_as_asked(table, agenda[k], outcomes[k]));
        assert(demand(live[v], table, stream) == Some((agenda[k].target, agenda[k].distance)));
    }
    lemma_quiet_outcomes(live, agenda, outcomes, table, n);
    assert(stores_text(Seq::<StoreView>::empty()) =~= Seq::<char>::empty());
    assert(shuffle(Seq::<MoveView>::empty(), scratch_name(table)).text() =~= Seq::<char>::empty());
    assert(plan(variables, table, stream, stack_offset).text =~= Seq::<char>::empty());
}

/// A variable that is destroyed at distance 0 leaves no trace: it is not
/// among the planned variables, and the plan is the one that is made
/// without it.
pub proof fn lemma_destroyed_variables_leave_no_trace(
    variables: Seq<VariableView>,
    table: Seq<RegisterView>,
    stream: Seq<InstructionView>,
    stack_offset: int,
)
    ensures
        forall|i: int|
            0 <= i < plan(variables, table, stream, stack_offset).variables.len() ==> !destroyed_at_once(
                stream,
                (#[trigger] plan(variables, table, stream, stack_offset).variables[i]).full_name,
            ),
        plan(variables, table, stream, stack_offset) == plan(
            live_variables(variables, stream),
            table,
            stream,
            stack_offset,
        ),
{
    lemma_plan_names(variables, table, stream, stack_offset);
    lemma_live_variables(variables, stream);
    lemma_live_variables_fixed(live_variables(variables, stream), stream);
}

/// Whether the demands that have to be met at once do not stand in each
/// other's way: no two variables are asked for in the same register at
/// distance 0, and no register that is asked for at distance 0 bears the
/// name that stands for the request for any register.
pub open spec fn has_no_rivals_at_once(
    live: Seq<VariableView>,
    table: Seq<RegisterView>,
    stream: Seq<InstructionView>,
) -> bool {
    &&& forall|v: int|
        0 <= v < live.len() ==> (demand(#[trigger] live[v], table, stream) matches Some((target, distance)) ==> (distance
            == 0 && target is Register ==> !target.is_general_purpose_register()))
    &&& forall|u: int, v: int|
        0 <= u < v < live.len() ==> (demand(#[trigger] live[u], table, stream) matches Some((first, near)) ==> (demand(
            #[trigger] live[v],
            table,
            stream,
        ) matches Some((second, soon)) ==> (near == 0 && soon == 0 && first is Register ==> first != second)))
}

/// A variable that is asked for at once in the register `name`, as one is
/// that waits in its argument register for the call, gets that register,
/// provided that the demands at distance 0 do not stand in each other's
/// way. Where it has its value there, it stays exactly as it is.
pub proof fn lemma_argument_register_is_kept(
    variables: Seq<VariableView>,
    table: Seq<RegisterView>,
    stream: Seq<InstructionView>,
    stack_offset: int,
    v: int,
    name: Seq<char>,
)
    requires
        table.len() <= usize::MAX,
        0 <= v < live_variables(variables, stream).len(),
        live_variables(variables, stream)[v].is_in_register(name),
        demand(live_variables(variables, stream)[v], table, stream) == Some((PositionView::Register(name), 0int)),
        has_no_rivals_at_once(live_variables(variables, stream), table, stream),
    ensures
        ({
            let live = live_variables(variables, stream);
            let agenda = agenda(live, table, stream);
            let outcomes = assign(table, live, agenda, stack_offset, agenda.len() as int).outcomes;
            exists|k: int|
                0 <= k < agenda.len() && (#[trigger] agenda[k]).variable == v && (outcomes[k] matches Outcome::Claimed(r)
                    && r < table.len() && table[r as int].name == name)
        }),
        live_variables(variables, stream)[v].value_register() == Some(name) ==> plan(
            variables,
            table,
            stream,
            stack_offset,
        ).variables[v] == live_variables(variables, stream)[v],
{
    let live = live_variables(variables, stream);
    let agenda = agenda(live, table, stream);
    let n = agenda.len() as int;
    lemma_agenda(live, table, stream);
    let p = choose|k: int| 0 <= k < agenda.len() && (#[trigger] agenda[k]).variable == v;
    assert(demand(live[v], table, stream) == Some((agenda[p].target, agenda[p].distance)));
    assert forall|k: int| 0 <= k <= p implies (#[trigger] agenda[k]).distance == 0 && (agenda[k].target is Register
        ==> names_table_register(table, agenda[k].target)) by {
        let u = agenda[k].variable;
        assert(demand(live[u], table, stream) == Some((agenda[k].target, agenda[k].distance)));
        lemma_next_use(live[u], table, stream, 0);
        assert(agenda[k].distance <= agenda[p].distance);
    }
    assert(is_conflict_free(table, agenda, p + 1)) by {
        assert forall|j: int, k: int| 0 <= j < k < p + 1 && (#[trigger] agenda[j]).target is Register implies agenda[j].target
            != (#[trigger] agenda[k]).target by {
            let u = agenda[j].variable;
            let w = agenda[k].variable;
            assert(agenda[j].distance == 0 && agenda[k].distance == 0);
            assert(demand(live[u], table, stream) == Some((agenda[j].target, agenda[j].distance)));
            assert(demand(live[w], table, stream) == Some((agenda[k].target, agenda[k].distance)));
            assert(u != w);
        }
    }
    lemma_assign_conflict_free(table, live, agenda, stack_offset, p + 1);
    lemma_assign_prefix(table, live, agenda, stack_offset, p + 1, n);
    let outcomes = assign(table, live, agenda, stack_offset, n).outcomes;
    assert(is_served_as_asked(table, agenda[p], assign(table, live, agenda, stack_offset, p + 1).outcomes[p]));
    assert(outcomes[p] == assign(table, live, agenda, stack_offset, p + 1).outcomes[p]);
    if live[v].value_register() == Some(name) {
        lemma_value_register_holds_value(live[v]);
        lemma_plan_of_resting_variable(variables, table, stream, stack_offset, p);
    }
}

} // verus!
