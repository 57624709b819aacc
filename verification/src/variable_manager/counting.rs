//! How many variables are spilled, and where to: no more than the demands
//! for a register exceed the general-purpose registers, and to slots that
//! are numbered from the offset at which the stack frame stood.
use vstd::prelude::*;
use crate::data_position::PositionView;
use crate::macro_instruction::InstructionView;
use crate::register::{RegisterTag, RegisterView};
use crate::search::lemma_first_index;
use crate::variable::VariableView;
use crate::variable_manager::assignment::{assign, is_free_general_purpose, lemma_assign_shape, lemma_least_wanted, Outcome};
use crate::variable_manager::demand::{agenda, lemma_agenda, lemma_live_variables, live_variables, DemandView};

verus! {

/// How many of the first `n` outcomes are spills.
pub open spec fn spill_count(outcomes: Seq<Outcome>, n: int) -> int
    decreases n,
{
    if n <= 0 {
        0
    } else {
        spill_count(outcomes, n - 1) + if outcomes[n - 1] is Spilled {
            1int
        } else {
            0int
        }
    }
}

/// How many of the first `n` outcomes are claims of a register.
pub open spec fn claim_count(outcomes: Seq<Outcome>, n: int) -> int
    decreases n,
{
    if n <= 0 {
        0
    } else {
        claim_count(outcomes, n - 1) + if outcomes[n - 1] is Claimed {
            1int
        } else {
            0int
        }
    }
}

/// How many of the first `n` demands are for a register.
pub open spec fn register_demand_count(agenda: Seq<DemandView>, n: int) -> int
    decreases n,
{
    if n <= 0 {
        0
    } else {
        register_demand_count(agenda, n - 1) + if agenda[n - 1].target is Register {
            1int
        } else {
            0int
        }
    }
}

/// How many of the first `n` registers of the table are general-purpose registers.
pub open spec fn general_purpose_count(table: Seq<RegisterView>, n: int) -> int
    decreases n,
{
    if n <= 0 {
        0
    } else {
        general_purpose_count(table, n - 1) + if table[n - 1].has_tag(RegisterTag::GeneralPurpose) {
            1int
        } else {
            0int
        }
    }
}

/// How many of the first `n` registers are claimed.
pub open spec fn claimed_count(claimed: Seq<bool>, n: int) -> int
    decreases n,
{
    if n <= 0 {
        0
    } else {
        claimed_count(claimed, n - 1) + if claimed[n - 1] {
            1int
        } else {
            0int
        }
    }
}

/// Whether every general-purpose register is claimed.
pub open spec fn is_full(table: Seq<RegisterView>, claimed: Seq<bool>) -> bool {
    forall|r: int| 0 <= r < table.len() ==> !#[trigger] is_free_general_purpose(table, claimed, r)
}

/// Claiming an unclaimed register makes one more claimed register.
proof fn lemma_claimed_count_update(claimed: Seq<bool>, r: int, n: int)
    requires
        0 <= r < claimed.len(),
        0 <= n <= claimed.len(),
        !claimed[r],
    ensures
        claimed_count(claimed.update(r, true), n) == claimed_count(claimed, n) + if r < n {
            1int
        } else {
            0int
        },
    decreases n,
{
    if n > 0 {
        lemma_claimed_count_update(claimed, r, n - 1);
    }
}

/// Where every general-purpose register is claimed, there are at least as
/// many claimed registers as general-purpose registers.
proof fn lemma_full_count(table: Seq<RegisterView>, claimed: Seq<bool>, n: int)
    requires
        0 <= n <= table.len(),
        claimed.len() == table.len(),
        is_full(table, claimed),
    ensures
        general_purpose_count(table, n) <= claimed_count(claimed, n),
    decreases n,
{
    if n > 0 {
        lemma_full_count(table, claimed, n - 1);
        assert(!is_free_general_purpose(table, claimed, n - 1));
    }
}

/// Every demand for a register ends in a claim, a collapse or a spill;
/// there are as many claimed registers as claims; and once a variable has
/// been spilled, every general-purpose register is claimed.
proof fn lemma_counts(
    table: Seq<RegisterView>,
    live: Seq<VariableView>,
    agenda: Seq<DemandView>,
    stack_offset: int,
    n: int,
)
    requires
        0 <= n <= agenda.len(),
        table.len() <= usize::MAX,
    ensures
        ({
            let after = assign(table, live, agenda, stack_offset, n);
            &&& claim_count(after.outcomes, n) + spill_count(after.outcomes, n) <= register_demand_count(agenda, n)
            &&& claimed_count(after.claimed, table.len() as int) == claim_count(after.outcomes, n)
            &&& spill_count(after.outcomes, n) > 0 ==> is_full(table, after.claimed)
        }),
    decreases n,
{
    lemma_assign_shape(table, live, agenda, stack_offset, n);
    let after = assign(table, live, agenda, stack_offset, n);
    if n <= 0 {
        lemma_none_claimed(after.claimed, table.len() as int);
    } else {
        lemma_counts(table, live, agenda, stack_offset, n - 1);
        lemma_assign_shape(table, live, agenda, stack_offset, n - 1);
        let before = assign(table, live, agenda, stack_offset, n - 1);
        let entry = agenda[n - 1];
        lemma_same_counts(before.outcomes, after.outcomes, n - 1);
        if let PositionView::Register(name) = entry.target {
            lemma_least_wanted(table, before.claimed, agenda, table.len() as int);
            lemma_first_index(table.len() as int, |i: int| !before.claimed[i] && table[i].name == name);
            match after.outcomes[n - 1] {
                Outcome::Claimed(r) => {
                    assert(!before.claimed[r as int]);
                    assert(after.claimed == before.claimed.update(r as int, true));
                    lemma_claimed_count_update(before.claimed, r as int, table.len() as int);
                    if is_full(table, before.claimed) {
                        assert forall|q: int| 0 <= q < table.len() implies !#[trigger] is_free_general_purpose(
                            table,
                            after.claimed,
                            q,
                        ) by {
                            assert(!is_free_general_purpose(table, before.claimed, q));
                        }
                    }
                },
                _ => {
                    assert(after.claimed == before.claimed);
                    assert(is_full(table, before.claimed));
                },
            }
        } else {
            assert(after.claimed == before.claimed);
        }
    }
}

/// Where no register is claimed, the count of the claimed registers is 0.
proof fn lemma_none_claimed(claimed: Seq<bool>, n: int)
    requires
        0 <= n <= claimed.len(),
        forall|r: int| 0 <= r < claimed.len() ==> !claimed[r],
    ensures
        claimed_count(claimed, n) == 0,
    decreases n,
{
    if n > 0 {
        lemma_none_claimed(claimed, n - 1);
    }
}

/// Outcomes that agree on their first `n` entries have the same counts there.
proof fn lemma_same_counts(first: Seq<Outcome>, second: Seq<Outcome>, n: int)
    requires
        0 <= n <= first.len(),
        n <= second.len(),
        forall|k: int| 0 <= k < n ==> first[k] == second[k],
    ensures
        spill_count(first, n) == spill_count(second, n),
        claim_count(first, n) == claim_count(second, n),
    decreases n,
{
    if n > 0 {
        lemma_same_counts(first, second, n - 1);
    }
}

/// No more variables are spilled than the demands for a register exceed
/// the general-purpose registers of the table.
pub proof fn lemma_spills_are_bounded(
    table: Seq<RegisterView>,
    live: Seq<VariableView>,
    agenda: Seq<DemandView>,
    stack_offset: int,
)
    requires
        table.len() <= usize::MAX,
    ensures
        ({
            let outcomes = assign(table, live, agenda, stack_offset, agenda.len() as int).outcomes;
            let spills = spill_count(outcomes, agenda.len() as int);
            let demands = register_demand_count(agenda, agenda.len() as int);
            let registers = general_purpose_count(table, table.len() as int);
            &&& 0 <= spills
            &&& spills > 0 ==> spills + registers <= demands
            &&& demands <= registers ==> spills == 0
        }),
{
    let n = agenda.len() as int;
    let after = assign(table, live, agenda, stack_offset, n);
    lemma_counts(table, live, agenda, stack_offset, n);
    lemma_assign_shape(table, live, agenda, stack_offset, n);
    lemma_counts_are_natural(after.outcomes, n);
    lemma_general_purpose_count_is_natural(table, table.len() as int);
    if spill_count(after.outcomes, n) > 0 {
        lemma_full_count(table, after.claimed, table.len() as int);
    }
}

/// Counts are not negative.
proof fn lemma_counts_are_natural(outcomes: Seq<Outcome>, n: int)
    ensures
        0 <= spill_count(outcomes, n),
        0 <= claim_count(outcomes, n),
    decreases n,
{
    if n > 0 {
        lemma_counts_are_natural(outcomes, n - 1);
    }
}

/// The count of the general-purpose registers is not negative.
proof fn lemma_general_purpose_count_is_natural(table: Seq<RegisterView>, n: int)
    ensures
        0 <= general_purpose_count(table, n),
    decreases n,
{
    if n > 0 {
        lemma_general_purpose_count_is_natural(table, n - 1);
    }
}

/// The offsets of the slots that the first `n` outcomes hand out, in the
/// order of the agenda.
pub open spec fn spill_slots(outcomes: Seq<Outcome>, n: int) -> Seq<usize>
    decreases n,
{
    if n <= 0 {
        Seq::empty()
    } else {
        match outcomes[n - 1] {
            Outcome::Spilled(offset) => spill_slots(outcomes, n - 1).push(offset),
            _ => spill_slots(outcomes, n - 1),
        }
    }
}

/// The offsets of the slots that the plan hands out to the variables that
/// it spills, in the order in which they are handed out.
pub open spec fn new_slots(
    variables: Seq<VariableView>,
    table: Seq<RegisterView>,
    stream: Seq<InstructionView>,
    stack_offset: int,
) -> Seq<usize> {
    let live = live_variables(variables, stream);
    let agenda = agenda(live, table, stream);
    spill_slots(assign(table, live, agenda, stack_offset, agenda.len() as int).outcomes, agenda.len() as int)
}

/// Outcomes that agree on their first `n` entries hand out the same slots there.
proof fn lemma_same_slots(first: Seq<Outcome>, second: Seq<Outcome>, n: int)
    requires
        0 <= n <= first.len(),
        n <= second.len(),
        forall|k: int| 0 <= k < n ==> first[k] == second[k],
    ensures
        spill_slots(first, n) == spill_slots(second, n),
    decreases n,
{
    if n > 0 {
        lemma_same_slots(first, second, n - 1);
    }
}

/// There are no more demands for a register than demands.
proof fn lemma_register_demand_count(agenda: Seq<DemandView>, n: int)
    requires
        0 <= n,
    ensures
        0 <= register_demand_count(agenda, n) <= n,
    decreases n,
{
    if n > 0 {
        lemma_register_demand_count(agenda, n - 1);
    }
}

/// The slots are numbered: there is one for every spill, the first at the
/// offset at which the stack frame stood and each 8 bytes behind the one
/// before, and the stack frame ends behind the last.
pub proof fn lemma_slots_are_numbered(
    table: Seq<RegisterView>,
    live: Seq<VariableView>,
    agenda: Seq<DemandView>,
    stack_offset: int,
    n: int,
)
    requires
        0 <= n <= agenda.len(),
        0 <= stack_offset,
        stack_offset + 8 * n <= usize::MAX,
    ensures
        ({
            let after = assign(table, live, agenda, stack_offset, n);
            let slots = spill_slots(after.outcomes, n);
            &&& slots.len() == spill_count(after.outcomes, n)
            &&& after.stack_offset == stack_offset + 8 * slots.len()
            &&& forall|i: int| 0 <= i < slots.len() ==> #[trigger] slots[i] == stack_offset + 8 * i
        }),
    decreases n,
{
    lemma_assign_shape(table, live, agenda, stack_offset, n);
    if n > 0 {
        lemma_slots_are_numbered(table, live, agenda, stack_offset, n - 1);
        lemma_assign_shape(table, live, agenda, stack_offset, n - 1);
        let before = assign(table, live, agenda, stack_offset, n - 1);
        let after = assign(table, live, agenda, stack_offset, n);
        lemma_same_counts(before.outcomes, after.outcomes, n - 1);
        lemma_same_slots(before.outcomes, after.outcomes, n - 1);
        let earlier = spill_slots(before.outcomes, n - 1);
        let slots = spill_slots(after.outcomes, n);
        if let Outcome::Spilled(offset) = after.outcomes[n - 1] {
            assert(offset == before.stack_offset);
            assert(slots == earlier.push(offset));
            assert forall|i: int| 0 <= i < slots.len() implies #[trigger] slots[i] == stack_offset + 8 * i by {
                if i < earlier.len() {
                    assert(slots[i] == earlier[i]);
                }
            }
        } else {
            assert(slots == earlier);
            assert(after.stack_offset == before.stack_offset);
        }
    }
}

/// What a plan does to the stack frame. Every variable that is spilled
/// gets a slot of its own: the first at the offset at which the stack frame
/// stood, each 8 bytes behind the one before, and the stack frame ends
/// behind the last. No more variables are spilled than there are more
/// variables than general-purpose registers.
pub proof fn lemma_new_slots(
    variables: Seq<VariableView>,
    table: Seq<RegisterView>,
    stream: Seq<InstructionView>,
    stack_offset: int,
)
    requires
        0 <= stack_offset,
        table.len() <= usize::MAX,
        stack_offset + 8 * variables.len() <= usize::MAX,
    ensures
        ({
            let live = live_variables(variables, stream);
            let agenda = agenda(live, table, stream);
            let after = assign(table, live, agenda, stack_offset, agenda.len() as int);
            let slots = new_slots(variables, table, stream, stack_offset);
            &&& after.stack_offset == stack_offset + 8 * slots.len()
            &&& forall|i: int| 0 <= i < slots.len() ==> #[trigger] slots[i] == stack_offset + 8 * i
            &&& forall|i: int, j: int| 0 <= i < j < slots.len() ==> (#[trigger] slots[i]) < (#[trigger] slots[j])
            &&& slots.len() > 0 ==> slots.len() + general_purpose_count(table, table.len() as int)
                <= variables.len()
            &&& variables.len() <= general_purpose_count(table, table.len() as int) ==> slots.len() == 0
        }),
{
    let live = live_variables(variables, stream);
    let agenda = agenda(live, table, stream);
    let n = agenda.len() as int;
    lemma_live_variables(variables, stream);
    lemma_agenda(live, table, stream);
    lemma_slots_are_numbered(table, live, agenda, stack_offset, n);
    lemma_spills_are_bounded(table, live, agenda, stack_offset);
    lemma_register_demand_count(agenda, n);
}

} // verus!
