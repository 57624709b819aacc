//! Physical assignment: the demands are served soonest first, each from
//! the registers that are left.
use vstd::prelude::*;
use crate::data_position::{DataPosition, PositionView};
use crate::register::{table_view, Register, RegisterTag, RegisterView};
use crate::search::{first_index, lemma_first_index_is, lemma_first_index_none};
use crate::variable::{Variable, VariableView};
use crate::variable_manager::demand::{demands_view, variables_view, Demand, DemandView, INFINITE_DISTANCE};

verus! {

/// What became of one demand.
#[derive(Clone, Copy, Debug, PartialEq, Eq, Structural)]
pub enum Outcome {
    /// The target is no register: the variable stays as it is.
    Kept,
    /// The variable gets the register with this index in the table.
    Claimed(usize),
    /// No register is left, and the variable falls back to a stack location
    /// that it has.
    Collapsed,
    /// No register is left, and the variable gets a new stack slot at this offset.
    Spilled(usize),
}

/// The state of the assignment: which registers of the table are claimed,
/// what became of the demands served so far, and the stack-frame offset.
pub struct Assignment {
    pub claimed: Seq<bool>,
    pub outcomes: Seq<Outcome>,
    pub stack_offset: int,
}

/// The first register that is called `name` and not claimed yet.
pub open spec fn first_unclaimed_named(table: Seq<RegisterView>, claimed: Seq<bool>, name: Seq<char>) -> Option<
    int,
> {
    first_index(table.len() as int, |i: int| !claimed[i] && table[i].name == name)
}

/// How much using the register called `name` would disturb: the distance of
/// the last demand of the agenda for that register, infinite if there is none.
pub open spec fn occupancy_cost(agenda: Seq<DemandView>, name: Seq<char>) -> int
    decreases agenda.len(),
{
    if agenda.len() == 0 {
        INFINITE_DISTANCE as int
    } else if agenda.last().target == PositionView::Register(name) {
        agenda.last().distance
    } else {
        occupancy_cost(agenda.drop_last(), name)
    }
}

/// Whether register `r` can serve any demand: general purpose and not claimed.
pub open spec fn is_free_general_purpose(table: Seq<RegisterView>, claimed: Seq<bool>, r: int) -> bool {
    !claimed[r] && table[r].has_tag(RegisterTag::GeneralPurpose)
}

/// Among the first `n` registers, the free general-purpose register with
/// the largest occupancy cost: the last of them where several cost the same.
pub open spec fn least_wanted(table: Seq<RegisterView>, claimed: Seq<bool>, agenda: Seq<DemandView>, n: int) -> Option<
    int,
>
    decreases n,
{
    if n <= 0 {
        None
    } else {
        let before = least_wanted(table, claimed, agenda, n - 1);
        if !is_free_general_purpose(table, claimed, n - 1) {
            before
        } else {
            match before {
                Some(b) => if occupancy_cost(agenda, table[n - 1].name) >= occupancy_cost(
                    agenda,
                    table[b].name,
                ) {
                    Some(n - 1)
                } else {
                    Some(b)
                },
                None => Some(n - 1),
            }
        }
    }
}

/// The register that serves a demand for `target`, which is a register or
/// the request for any: the named register where it is unclaimed, else the
/// least wanted free general-purpose register.
pub open spec fn pick_register(
    table: Seq<RegisterView>,
    claimed: Seq<bool>,
    agenda: Seq<DemandView>,
    target: PositionView,
) -> Option<int> {
    let named = match target {
        PositionView::Register(name) => if target.is_general_purpose_register() {
            None
        } else {
            first_unclaimed_named(table, claimed, name)
        },
        _ => None,
    };
    match named {
        Some(r) => Some(r),
        None => least_wanted(table, claimed, agenda, table.len() as int),
    }
}

/// The assignment after `entry` has been served.
pub open spec fn assign_next(
    before: Assignment,
    table: Seq<RegisterView>,
    live: Seq<VariableView>,
    agenda: Seq<DemandView>,
    entry: DemandView,
) -> Assignment {
    if !(entry.target is Register) {
        Assignment { outcomes: before.outcomes.push(Outcome::Kept), ..before }
    } else {
        match pick_register(table, before.claimed, agenda, entry.target) {
            Some(r) => Assignment {
                claimed: before.claimed.update(r, true),
                outcomes: before.outcomes.push(Outcome::Claimed(r as usize)),
                stack_offset: before.stack_offset,
            },
            None => if live[entry.variable].has_stack_position() {
                Assignment { outcomes: before.outcomes.push(Outcome::Collapsed), ..before }
            } else {
                Assignment {
                    claimed: before.claimed,
                    outcomes: before.outcomes.push(Outcome::Spilled(before.stack_offset as usize)),
                    stack_offset: before.stack_offset + 8,
                }
            },
        }
    }
}

/// The assignment after the first `n` demands of the agenda have been
/// served, starting with no register claimed and the stack frame at
/// `stack_offset`.
pub open spec fn assign(
    table: Seq<RegisterView>,
    live: Seq<VariableView>,
    agenda: Seq<DemandView>,
    stack_offset: int,
    n: int,
) -> Assignment
    decreases n,
{
    if n <= 0 {
        Assignment { claimed: Seq::new(table.len(), |i: int| false), outcomes: Seq::empty(), stack_offset }
    } else {
        assign_next(assign(table, live, agenda, stack_offset, n - 1), table, live, agenda, agenda[n - 1])
    }
}

/// What `least_wanted` returns is a free general-purpose register, none
/// costs more, and every one after it costs less; it returns nothing only
/// when no general-purpose register is free.
pub proof fn lemma_least_wanted(table: Seq<RegisterView>, claimed: Seq<bool>, agenda: Seq<DemandView>, n: int)
    requires
        0 <= n <= table.len(),
    ensures
        match least_wanted(table, claimed, agenda, n) {
            Some(r) => 0 <= r < n && is_free_general_purpose(table, claimed, r)
                && (forall|j: int| 0 <= j < n && #[trigger] is_free_general_purpose(table, claimed, j)
                    ==> occupancy_cost(agenda, table[j].name) <= occupancy_cost(agenda, table[r].name))
                && (forall|j: int| r < j < n && #[trigger] is_free_general_purpose(table, claimed, j)
                    ==> occupancy_cost(agenda, table[j].name) < occupancy_cost(agenda, table[r].name)),
            None => forall|j: int| 0 <= j < n ==> !#[trigger] is_free_general_purpose(table, claimed, j),
        },
    decreases n,
{
    if n > 0 {
        lemma_least_wanted(table, claimed, agenda, n - 1);
    }
}

/// The assignment after `n` demands holds one outcome for each of them and
/// one flag for each register, and every spill has moved the stack-frame
/// offset on by 8.
pub proof fn lemma_assign_shape(
    table: Seq<RegisterView>,
    live: Seq<VariableView>,
    agenda: Seq<DemandView>,
    stack_offset: int,
    n: int,
)
    requires
        0 <= n <= agenda.len(),
    ensures
        assign(table, live, agenda, stack_offset, n).claimed.len() == table.len(),
        assign(table, live, agenda, stack_offset, n).outcomes.len() == n,
        stack_offset <= assign(table, live, agenda, stack_offset, n).stack_offset <= stack_offset + 8 * n,
        (assign(table, live, agenda, stack_offset, n).stack_offset - stack_offset) % 8 == 0,
        forall|k: int|
            0 <= k < n ==> (#[trigger] assign(table, live, agenda, stack_offset, n).outcomes[k] matches Outcome::Claimed(
                r,
            ) ==> r < table.len()),
    decreases n,
{
    if n > 0 {
        lemma_assign_shape(table, live, agenda, stack_offset, n - 1);
        let before = assign(table, live, agenda, stack_offset, n - 1);
        let entry = agenda[n - 1];
        if entry.target is Register {
            lemma_pick_register(table, before.claimed, agenda, entry.target);
        }
    }
}

/// A register that `pick_register` returns is in the table and unclaimed.
pub proof fn lemma_pick_register(
    table: Seq<RegisterView>,
    claimed: Seq<bool>,
    agenda: Seq<DemandView>,
    target: PositionView,
)
    ensures
        pick_register(table, claimed, agenda, target) matches Some(r) ==> 0 <= r < table.len() && !claimed[r],
{
    lemma_least_wanted(table, claimed, agenda, table.len() as int);
    if let PositionView::Register(name) = target {
        crate::search::lemma_first_index(table.len() as int, |i: int| !claimed[i] && table[i].name == name);
    }
}

/// Finds the first register that is called `name` and not claimed yet.
fn find_unclaimed_named(registers: &Vec<Register>, claimed: &Vec<bool>, name: &String) -> (res: Option<usize>)
    requires
        claimed.len() == registers.len(),
    ensures
        match res {
            Some(r) => r < registers.len() && first_unclaimed_named(table_view(registers@), claimed@, name@)
                == Some(r as int),
            None => first_unclaimed_named(table_view(registers@), claimed@, name@) is None,
        },
{
    let ghost table = table_view(registers@);
    let ghost flags = claimed@;
    let ghost wanted = name@;
    let ghost p = |i: int| !flags[i] && table[i].name == wanted;
    let mut r: usize = 0;
    while r < registers.len()
        invariant
            r <= registers.len(),
            claimed.len() == registers.len(),
            table == table_view(registers@),
            flags == claimed@,
            wanted == name@,
            p == |i: int| !flags[i] && table[i].name == wanted,
            forall|j: int| 0 <= j < r ==> !#[trigger] p(j),
        decreases registers.len() - r,
    {
        assert(table[r as int] == registers[r as int]@);
        if !claimed[r] && registers[r].name == *name {
            proof {
                lemma_first_index_is(table.len() as int, p, r as int);
            }
            return Some(r);
        }
        r += 1;
    }
    proof {
        lemma_first_index_none(table.len() as int, p);
    }
    None
}

/// The occupancy cost of the register called `name`.
fn cost_of_occupying(agenda: &Vec<Demand>, name: &String) -> (res: usize)
    ensures
        res == occupancy_cost(demands_view(agenda@), name@),
{
    let ghost all = demands_view(agenda@);
    let mut k: usize = agenda.len();
    assert(all.subrange(0, k as int) == all);
    while k > 0
        invariant
            k <= agenda.len(),
            all == demands_view(agenda@),
            occupancy_cost(all, name@) == occupancy_cost(all.subrange(0, k as int), name@),
        decreases k,
    {
        proof {
            assert(all.subrange(0, k as int).drop_last() == all.subrange(0, k - 1));
            assert(all.subrange(0, k as int).last() == agenda[k - 1]@);
        }
        if agenda[k - 1].target.is_register(name.clone()) {
            return agenda[k - 1].distance;
        }
        k -= 1;
    }
    INFINITE_DISTANCE
}

/// Finds the free general-purpose register that is wanted least.
fn find_least_wanted(registers: &Vec<Register>, claimed: &Vec<bool>, agenda: &Vec<Demand>) -> (res: Option<usize>)
    requires
        claimed.len() == registers.len(),
    ensures
        match res {
            Some(r) => r < registers.len() && least_wanted(
                table_view(registers@),
                claimed@,
                demands_view(agenda@),
                registers.len() as int,
            ) == Some(r as int),
            None => least_wanted(table_view(registers@), claimed@, demands_view(agenda@), registers.len() as int)
                is None,
        },
{
    let ghost table = table_view(registers@);
    let ghost all = demands_view(agenda@);
    let mut best: Option<(usize, usize)> = None;
    let mut r: usize = 0;
    while r < registers.len()
        invariant
            r <= registers.len(),
            claimed.len() == registers.len(),
            table == table_view(registers@),
            all == demands_view(agenda@),
            match best {
                Some((b, cost)) => b < r && cost == occupancy_cost(all, table[b as int].name) && least_wanted(
                    table,
                    claimed@,
                    all,
                    r as int,
                ) == Some(b as int),
                None => least_wanted(table, claimed@, all, r as int) is None,
            },
        decreases registers.len() - r,
    {
        assert(table[r as int] == registers[r as int]@);
        if !claimed[r] && registers[r].has_tag(RegisterTag::GeneralPurpose) {
            let cost = cost_of_occupying(agenda, &registers[r].name);
            let replace = match best {
                Some((_, best_cost)) => cost >= best_cost,
                None => true,
            };
            if replace {
                best = Some((r, cost));
            }
        }
        r += 1;
    }
    match best {
        Some((b, _)) => Some(b),
        None => None,
    }
}

/// Finds the register that serves a demand for the register `target`.
fn find_register(registers: &Vec<Register>, claimed: &Vec<bool>, agenda: &Vec<Demand>, target: &DataPosition) -> (res:
    Option<usize>)
    requires
        claimed.len() == registers.len(),
        target@ is Register,
    ensures
        match res {
            Some(r) => r < registers.len() && pick_register(
                table_view(registers@),
                claimed@,
                demands_view(agenda@),
                target@,
            ) == Some(r as int),
            None => pick_register(table_view(registers@), claimed@, demands_view(agenda@), target@) is None,
        },
{
    if !target.is_general_purpose_register() {
        if let Some(name) = target.register_name() {
            let named = find_unclaimed_named(registers, claimed, &name);
            if named.is_some() {
                return named;
            }
        }
    }
    find_least_wanted(registers, claimed, agenda)
}

/// Serves the demands of `agenda` in order. Returns what became of each,
/// and moves `stack_offset` on by 8 for every variable that is spilled.
pub fn assign_registers(
    live: &Vec<Variable>,
    registers: &Vec<Register>,
    agenda: &Vec<Demand>,
    stack_offset: &mut usize,
) -> (outcomes: Vec<Outcome>)
    requires
        forall|k: int| 0 <= k < agenda.len() ==> (#[trigger] agenda[k]).variable < live.len(),
        *old(stack_offset) + 8 * agenda.len() <= usize::MAX,
    ensures
        outcomes@ == assign(
            table_view(registers@),
            variables_view(live@),
            demands_view(agenda@),
            *old(stack_offset) as int,
            agenda.len() as int,
        ).outcomes,
        *final(stack_offset) == assign(
            table_view(registers@),
            variables_view(live@),
            demands_view(agenda@),
            *old(stack_offset) as int,
            agenda.len() as int,
        ).stack_offset,
{
    let ghost table = table_view(registers@);
    let ghost all = variables_view(live@);
    let ghost entries = demands_view(agenda@);
    let ghost start = *old(stack_offset) as int;
    let mut claimed: Vec<bool> = Vec::new();
    let mut r: usize = 0;
    while r < registers.len()
        invariant
            r <= registers.len(),
            claimed.len() == r,
            forall|j: int| 0 <= j < r ==> !claimed[j],
        decreases registers.len() - r,
    {
        claimed.push(false);
        r += 1;
    }
    assert(claimed@ =~= Seq::new(table.len(), |i: int| false));
    let mut outcomes: Vec<Outcome> = Vec::new();
    let mut k: usize = 0;
    while k < agenda.len()
        invariant
            k <= agenda.len(),
            claimed.len() == registers.len(),
            table == table_view(registers@),
            all == variables_view(live@),
            entries == demands_view(agenda@),
            forall|j: int| 0 <= j < agenda.len() ==> (#[trigger] agenda[j]).variable < live.len(),
            start + 8 * agenda.len() <= usize::MAX,
            claimed@ == assign(table, all, entries, start, k as int).claimed,
            outcomes@ == assign(table, all, entries, start, k as int).outcomes,
            *stack_offset == assign(table, all, entries, start, k as int).stack_offset,
        decreases agenda.len() - k,
    {
        proof {
            lemma_assign_shape(table, all, entries, start, k as int);
            assert(entries[k as int] == agenda[k as int]@);
            assert(all[agenda[k as int].variable as int] == live[agenda[k as int].variable as int]@);
        }
        let entry = &agenda[k];
        match &entry.target {
            DataPosition::Register(_) => {
                match find_register(registers, &claimed, agenda, &entry.target) {
                    Some(r) => {
                        claimed.set(r, true);
                        outcomes.push(Outcome::Claimed(r));
                    },
                    None => {
                        if live[entry.variable].has_stack_position() {
                            outcomes.push(Outcome::Collapsed);
                        } else {
                            outcomes.push(Outcome::Spilled(*stack_offset));
                            *stack_offset += 8;
                        }
                    },
                }
            },
            _ => {
                outcomes.push(Outcome::Kept);
            },
        }
        k += 1;
    }
    outcomes
}

} // verus!
