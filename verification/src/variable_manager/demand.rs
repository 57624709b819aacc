//! Demand inference: where the upcoming instructions want each variable,
//! and how soon.
use vstd::prelude::*;
use crate::data_position::{DataPosition, PositionView};
use crate::macro_instruction::{stream_view, InstructionView, MacroInstruction};
use crate::register::{argument_register, find_argument_register, table_view, Register, RegisterView};
use crate::variable::{Variable, VariableView};

verus! {

/// The distance of a variable that nothing asks for.
pub const INFINITE_DISTANCE: usize = usize::MAX;

/// Where a variable should be and how soon, the variable given by its index
/// in the list of live variables.
#[derive(Debug)]
pub struct Demand {
    pub variable: usize,
    pub target: DataPosition,
    pub distance: usize,
}

/// The mathematical value of a [`Demand`].
pub struct DemandView {
    pub variable: int,
    pub target: PositionView,
    pub distance: int,
}

impl View for Demand {
    type V = DemandView;

    open spec fn view(&self) -> DemandView {
        DemandView { variable: self.variable as int, target: self.target@, distance: self.distance as int }
    }
}

/// The mathematical values of a list of variables.
pub open spec fn variables_view(variables: Seq<Variable>) -> Seq<VariableView> {
    variables.map_values(|v: Variable| v@)
}

/// The mathematical values of a list of demands.
pub open spec fn demands_view(demands: Seq<Demand>) -> Seq<DemandView> {
    demands.map_values(|d: Demand| d@)
}

/// Whether the variable called `name` dies before anything else happens:
/// the stream starts by destroying it.
pub open spec fn destroyed_at_once(stream: Seq<InstructionView>, name: Seq<char>) -> bool {
    stream.len() > 0 && match stream[0] {
        InstructionView::DestroyVariable(variable) => variable.full_name == name,
        _ => false,
    }
}

/// The variables that stay alive: all but those destroyed at distance 0.
pub open spec fn live_variables(variables: Seq<VariableView>, stream: Seq<InstructionView>) -> Seq<
    VariableView,
> {
    variables.filter(|v: VariableView| !destroyed_at_once(stream, v.full_name))
}

/// The argument slot in which `instruction` uses the variable called `name`.
pub open spec fn used_slot(instruction: InstructionView, name: Seq<char>) -> Option<usize> {
    match instruction {
        InstructionView::UseVariableAsArgument(variable, slot) => if variable.full_name == name {
            Some(slot)
        } else {
            None
        },
        _ => None,
    }
}

/// What the use of `variable` as the argument of slot `slot` at distance
/// `at` demands. Where the slot has a register, that register: at once if
/// the variable is held there already, else by the time of the use. Where
/// it has none, the stack if the use comes next, and nothing otherwise.
pub open spec fn use_demand(variable: VariableView, table: Seq<RegisterView>, slot: usize, at: int) -> Option<
    (PositionView, int),
> {
    match argument_register(table, slot) {
        Some(r) => Some(
            (
                PositionView::Register(table[r].name),
                if variable.is_in_register(table[r].name) {
                    0
                } else {
                    at
                },
            ),
        ),
        None => if at == 0 {
            Some((PositionView::StackOffset(0), 0))
        } else {
            None
        },
    }
}

/// The first demand that the uses of `variable` at distance `from` or later make.
pub open spec fn next_use(
    variable: VariableView,
    table: Seq<RegisterView>,
    stream: Seq<InstructionView>,
    from: int,
) -> Option<(PositionView, int)>
    decreases stream.len() - from,
{
    if from < 0 || from >= stream.len() {
        None
    } else {
        match used_slot(stream[from], variable.full_name) {
            Some(slot) => match use_demand(variable, table, slot, from) {
                Some(demand) => Some(demand),
                None => next_use(variable, table, stream, from + 1),
            },
            None => next_use(variable, table, stream, from + 1),
        }
    }
}

/// Target and distance of `variable`: what its first demanding use asks
/// for; without one, its cheapest location at infinite distance; nothing
/// for a variable that has neither.
pub open spec fn demand(variable: VariableView, table: Seq<RegisterView>, stream: Seq<InstructionView>) -> Option<
    (PositionView, int),
> {
    match next_use(variable, table, stream, 0) {
        Some(demand) => Some(demand),
        None => match variable.cheapest() {
            Some(position) => Some((position, INFINITE_DISTANCE as int)),
            None => None,
        },
    }
}

/// The demands of the variables `live`, in the order of the variables.
/// A variable without a demand has no entry.
pub open spec fn demands(live: Seq<VariableView>, table: Seq<RegisterView>, stream: Seq<InstructionView>) -> Seq<
    DemandView,
>
    decreases live.len(),
{
    if live.len() == 0 {
        Seq::empty()
    } else {
        let rest = demands(live.drop_last(), table, stream);
        match demand(live.last(), table, stream) {
            Some((target, distance)) => rest.push(
                DemandView { variable: live.len() - 1, target, distance },
            ),
            None => rest,
        }
    }
}

/// `sorted` with `entry` put behind the last demand that is not farther
/// away than `entry`.
pub open spec fn insert_by_distance(sorted: Seq<DemandView>, entry: DemandView) -> Seq<DemandView>
    decreases sorted.len(),
{
    if sorted.len() == 0 || sorted.last().distance <= entry.distance {
        sorted.push(entry)
    } else {
        insert_by_distance(sorted.drop_last(), entry).push(sorted.last())
    }
}

/// `entries` in ascending order of distance; demands at the same distance
/// keep their order.
pub open spec fn by_distance(entries: Seq<DemandView>) -> Seq<DemandView>
    decreases entries.len(),
{
    if entries.len() == 0 {
        entries
    } else {
        insert_by_distance(by_distance(entries.drop_last()), entries.last())
    }
}

/// The demands of the live variables in the order in which the planner
/// serves them: soonest first.
pub open spec fn agenda(live: Seq<VariableView>, table: Seq<RegisterView>, stream: Seq<InstructionView>) -> Seq<
    DemandView,
> {
    by_distance(demands(live, table, stream))
}

/// Putting `entry` in at the index behind which every demand is farther
/// away, and before which the nearest is not, is `insert_by_distance`.
pub proof fn lemma_insert_by_distance(sorted: Seq<DemandView>, entry: DemandView, at: int)
    requires
        0 <= at <= sorted.len(),
        forall|j: int| at <= j < sorted.len() ==> (#[trigger] sorted[j]).distance > entry.distance,
        at > 0 ==> sorted[at - 1].distance <= entry.distance,
    ensures
        insert_by_distance(sorted, entry) == sorted.insert(at, entry),
    decreases sorted.len(),
{
    if at == sorted.len() {
        assert(sorted.push(entry) =~= sorted.insert(at, entry));
    } else {
        let init = sorted.drop_last();
        assert(sorted.last() == sorted[sorted.len() - 1]);
        assert forall|j: int| at <= j < init.len() implies (#[trigger] init[j]).distance > entry.distance by {
            assert(init[j] == sorted[j]);
        }
        if at > 0 {
            assert(init[at - 1] == sorted[at - 1]);
        }
        lemma_insert_by_distance(init, entry, at);
        assert(init.insert(at, entry).push(sorted.last()) =~= sorted.insert(at, entry));
    }
}

/// `insert_by_distance` holds the demands of `sorted` and `entry`, and nothing else.
pub proof fn lemma_insert_by_distance_contents(sorted: Seq<DemandView>, entry: DemandView)
    ensures
        insert_by_distance(sorted, entry).len() == sorted.len() + 1,
        forall|x: DemandView| #[trigger]
            insert_by_distance(sorted, entry).contains(x) <==> x == entry || sorted.contains(x),
    decreases sorted.len(),
{
    let res = insert_by_distance(sorted, entry);
    if sorted.len() == 0 || sorted.last().distance <= entry.distance {
        assert forall|x: DemandView| #[trigger] res.contains(x) <==> x == entry || sorted.contains(x) by {
            if res.contains(x) {
                let i = choose|i: int| 0 <= i < res.len() && res[i] == x;
                if i < sorted.len() {
                    assert(sorted[i] == x);
                }
            }
            if x == entry {
                assert(res[sorted.len() as int] == x);
            }
            if sorted.contains(x) {
                let i = choose|i: int| 0 <= i < sorted.len() && sorted[i] == x;
                assert(res[i] == x);
            }
        }
    } else {
        let init = sorted.drop_last();
        lemma_insert_by_distance_contents(init, entry);
        let inner = insert_by_distance(init, entry);
        assert forall|x: DemandView| #[trigger] res.contains(x) <==> x == entry || sorted.contains(x) by {
            if res.contains(x) {
                let i = choose|i: int| 0 <= i < res.len() && res[i] == x;
                if i < inner.len() {
                    assert(inner[i] == x);
                    assert(inner.contains(x));
                    if init.contains(x) {
                        let j = choose|j: int| 0 <= j < init.len() && init[j] == x;
                        assert(sorted[j] == x);
                    }
                } else {
                    assert(sorted[sorted.len() - 1] == x);
                }
            }
            if x == entry {
                assert(inner.contains(x));
                let i = choose|i: int| 0 <= i < inner.len() && inner[i] == x;
                assert(res[i] == x);
            }
            if sorted.contains(x) {
                let j = choose|j: int| 0 <= j < sorted.len() && sorted[j] == x;
                if j < init.len() {
                    assert(init[j] == x);
                    assert(init.contains(x));
                    assert(inner.contains(x));
                    let i = choose|i: int| 0 <= i < inner.len() && inner[i] == x;
                    assert(res[i] == x);
                } else {
                    assert(res[res.len() - 1] == x);
                }
            }
        }
    }
}

/// `by_distance` holds the demands of `entries`, and nothing else.
pub proof fn lemma_by_distance_contents(entries: Seq<DemandView>)
    ensures
        by_distance(entries).len() == entries.len(),
        forall|x: DemandView| #[trigger] by_distance(entries).contains(x) <==> entries.contains(x),
    decreases entries.len(),
{
    if entries.len() > 0 {
        let init = entries.drop_last();
        lemma_by_distance_contents(init);
        lemma_insert_by_distance_contents(by_distance(init), entries.last());
        assert forall|x: DemandView| #[trigger] by_distance(entries).contains(x) <==> entries.contains(x) by {
            if entries.contains(x) {
                let j = choose|j: int| 0 <= j < entries.len() && entries[j] == x;
                if j < init.len() {
                    assert(init[j] == x);
                    assert(init.contains(x));
                }
            }
            if init.contains(x) {
                let j = choose|j: int| 0 <= j < init.len() && init[j] == x;
                assert(entries[j] == x);
            }
            if x == entries.last() {
                assert(entries[entries.len() - 1] == x);
            }
        }
    }
}

/// Whether the demands stand in ascending order of distance.
pub open spec fn is_ascending(entries: Seq<DemandView>) -> bool {
    forall|i: int, j: int|
        0 <= i <= j < entries.len() ==> (#[trigger] entries[i]).distance <= (#[trigger] entries[j]).distance
}

/// Whether no two of the demands are for the same variable.
pub open spec fn has_distinct_variables(entries: Seq<DemandView>) -> bool {
    forall|i: int, j: int|
        0 <= i < j < entries.len() ==> (#[trigger] entries[i]).variable != (#[trigger] entries[j]).variable
}

/// The index at which `insert_by_distance` puts `entry` into `sorted`.
pub open spec fn insertion_point(sorted: Seq<DemandView>, entry: DemandView) -> int
    decreases sorted.len(),
{
    if sorted.len() == 0 || sorted.last().distance <= entry.distance {
        sorted.len() as int
    } else {
        insertion_point(sorted.drop_last(), entry)
    }
}

/// `insert_by_distance` puts `entry` in at `insertion_point`: behind it
/// every demand is farther away, and the one before it is not.
pub proof fn lemma_insertion_point(sorted: Seq<DemandView>, entry: DemandView)
    ensures
        0 <= insertion_point(sorted, entry) <= sorted.len(),
        insert_by_distance(sorted, entry) == sorted.insert(insertion_point(sorted, entry), entry),
        forall|j: int|
            insertion_point(sorted, entry) <= j < sorted.len() ==> (#[trigger] sorted[j]).distance > entry.distance,
        insertion_point(sorted, entry) > 0 ==> sorted[insertion_point(sorted, entry) - 1].distance
            <= entry.distance,
    decreases sorted.len(),
{
    if sorted.len() == 0 || sorted.last().distance <= entry.distance {
    } else {
        let init = sorted.drop_last();
        lemma_insertion_point(init, entry);
        let at = insertion_point(init, entry);
        assert forall|j: int| at <= j < sorted.len() implies (#[trigger] sorted[j]).distance > entry.distance by {
            if j < init.len() {
                assert(sorted[j] == init[j]);
            }
        }
        if at > 0 {
            assert(sorted[at - 1] == init[at - 1]);
        }
    }
    lemma_insert_by_distance(sorted, entry, insertion_point(sorted, entry));
}

/// Inserting into demands in ascending order gives demands in ascending order.
pub proof fn lemma_insert_keeps_order(sorted: Seq<DemandView>, entry: DemandView)
    requires
        is_ascending(sorted),
    ensures
        is_ascending(insert_by_distance(sorted, entry)),
{
    lemma_insertion_point(sorted, entry);
    let at = insertion_point(sorted, entry);
    let res = sorted.insert(at, entry);
    assert forall|i: int, j: int| 0 <= i <= j < res.len() implies (#[trigger] res[i]).distance <= (#[trigger] res[j]).distance by {
        if at > 0 {
            if i < at {
                assert(sorted[i].distance <= sorted[at - 1].distance);
            }
        }
        if i < at {
            assert(res[i] == sorted[i]);
        } else if i > at {
            assert(res[i] == sorted[i - 1]);
        }
        if j < at {
            assert(res[j] == sorted[j]);
        } else if j > at {
            assert(res[j] == sorted[j - 1]);
        }
    }
}

/// Inserting a demand for a variable that has none yet keeps the variables distinct.
pub proof fn lemma_insert_keeps_distinct(sorted: Seq<DemandView>, entry: DemandView)
    requires
        has_distinct_variables(sorted),
        forall|j: int| 0 <= j < sorted.len() ==> (#[trigger] sorted[j]).variable != entry.variable,
    ensures
        has_distinct_variables(insert_by_distance(sorted, entry)),
{
    lemma_insertion_point(sorted, entry);
    let at = insertion_point(sorted, entry);
    let res = sorted.insert(at, entry);
    assert forall|i: int, j: int| 0 <= i < j < res.len() implies (#[trigger] res[i]).variable != (#[trigger] res[j]).variable by {
        if i < at {
            assert(res[i] == sorted[i]);
        } else if i > at {
            assert(res[i] == sorted[i - 1]);
        }
        if j < at {
            assert(res[j] == sorted[j]);
        } else if j > at {
            assert(res[j] == sorted[j - 1]);
        }
    }
}

/// Sorting demands for distinct variables gives them in ascending order
/// of distance, still for distinct variables.
pub proof fn lemma_by_distance(entries: Seq<DemandView>)
    requires
        has_distinct_variables(entries),
    ensures
        is_ascending(by_distance(entries)),
        has_distinct_variables(by_distance(entries)),
    decreases entries.len(),
{
    if entries.len() > 0 {
        let init = entries.drop_last();
        assert(has_distinct_variables(init)) by {
            assert forall|i: int, j: int| 0 <= i < j < init.len() implies (#[trigger] init[i]).variable != (#[trigger] init[j]).variable by {
                assert(init[i] == entries[i]);
                assert(init[j] == entries[j]);
            }
        }
        lemma_by_distance(init);
        lemma_by_distance_contents(init);
        let sorted = by_distance(init);
        assert forall|j: int| 0 <= j < sorted.len() implies (#[trigger] sorted[j]).variable != entries.last().variable by {
            assert(sorted.contains(sorted[j]));
            assert(init.contains(sorted[j]));
            let k = choose|k: int| 0 <= k < init.len() && init[k] == sorted[j];
            assert(entries[k] == init[k]);
            assert(entries[entries.len() - 1] == entries.last());
        }
        lemma_insert_keeps_order(sorted, entries.last());
        lemma_insert_keeps_distinct(sorted, entries.last());
    }
}

/// Every entry of `demands` is the demand of the live variable that it
/// names, and the entries name the variables in ascending order.
pub proof fn lemma_demands(live: Seq<VariableView>, table: Seq<RegisterView>, stream: Seq<InstructionView>)
    ensures
        demands(live, table, stream).len() <= live.len(),
        forall|k: int|
            0 <= k < demands(live, table, stream).len() ==> {
                let entry = #[trigger] demands(live, table, stream)[k];
                &&& 0 <= entry.variable < live.len()
                &&& demand(live[entry.variable], table, stream) == Some((entry.target, entry.distance))
            },
        forall|j: int, k: int|
            0 <= j < k < demands(live, table, stream).len() ==> (#[trigger] demands(
                live,
                table,
                stream,
            )[j]).variable < (#[trigger] demands(live, table, stream)[k]).variable,
    decreases live.len(),
{
    if live.len() > 0 {
        let init = live.drop_last();
        lemma_demands(init, table, stream);
        let rest = demands(init, table, stream);
        assert forall|k: int| 0 <= k < rest.len() implies live[(#[trigger] rest[k]).variable] == init[rest[k].variable] by {}
    }
}

/// Every live variable with a demand has an entry in `demands`.
pub proof fn lemma_demands_complete(
    live: Seq<VariableView>,
    table: Seq<RegisterView>,
    stream: Seq<InstructionView>,
    v: int,
)
    requires
        0 <= v < live.len(),
        demand(live[v], table, stream) is Some,
    ensures
        exists|j: int|
            0 <= j < demands(live, table, stream).len() && (#[trigger] demands(live, table, stream)[j]).variable
                == v,
    decreases live.len(),
{
    let init = live.drop_last();
    let rest = demands(init, table, stream);
    let all = demands(live, table, stream);
    if v == live.len() - 1 {
        assert(all[all.len() - 1].variable == v);
    } else {
        assert(init[v] == live[v]);
        lemma_demands_complete(init, table, stream, v);
        let j = choose|j: int| 0 <= j < rest.len() && (#[trigger] rest[j]).variable == v;
        assert(all[j] == rest[j]);
    }
}

/// Every entry of the agenda is the demand of the live variable that it
/// names, every live variable with a demand has its entry, no variable
/// has two, and the entries stand in ascending order of distance.
pub proof fn lemma_agenda(live: Seq<VariableView>, table: Seq<RegisterView>, stream: Seq<InstructionView>)
    ensures
        agenda(live, table, stream).len() <= live.len(),
        is_ascending(agenda(live, table, stream)),
        has_distinct_variables(agenda(live, table, stream)),
        forall|v: int|
            0 <= v < live.len() && demand(#[trigger] live[v], table, stream) is Some ==> exists|k: int|
                0 <= k < agenda(live, table, stream).len() && (#[trigger] agenda(live, table, stream)[k]).variable
                    == v,
        forall|k: int|
            0 <= k < agenda(live, table, stream).len() ==> {
                let entry = #[trigger] agenda(live, table, stream)[k];
                &&& 0 <= entry.variable < live.len()
                &&& demand(live[entry.variable], table, stream) == Some((entry.target, entry.distance))
            },
{
    let entries = demands(live, table, stream);
    lemma_demands(live, table, stream);
    lemma_by_distance_contents(entries);
    lemma_by_distance(entries);
    assert forall|v: int| 0 <= v < live.len() && demand(#[trigger] live[v], table, stream) is Some implies exists|
        k: int,
    |
        0 <= k < agenda(live, table, stream).len() && (#[trigger] agenda(live, table, stream)[k]).variable == v by {
        lemma_demands_complete(live, table, stream, v);
        let j = choose|j: int| 0 <= j < entries.len() && (#[trigger] entries[j]).variable == v;
        assert(entries.contains(entries[j]));
        assert(by_distance(entries).contains(entries[j]));
        let k = choose|k: int| 0 <= k < by_distance(entries).len() && by_distance(entries)[k] == entries[j];
        assert(agenda(live, table, stream)[k].variable == v);
    }
    assert forall|k: int| 0 <= k < agenda(live, table, stream).len() implies {
        let entry = #[trigger] agenda(live, table, stream)[k];
        &&& 0 <= entry.variable < live.len()
        &&& demand(live[entry.variable], table, stream) == Some((entry.target, entry.distance))
    } by {
        let entry = agenda(live, table, stream)[k];
        assert(by_distance(entries).contains(entry));
        assert(entries.contains(entry));
        let j = choose|j: int| 0 <= j < entries.len() && entries[j] == entry;
        assert(entries[j] == entry);
    }
}

/// The live variables are variables of the list, in their order, and none
/// of them is destroyed at distance 0.
pub proof fn lemma_live_variables(variables: Seq<VariableView>, stream: Seq<InstructionView>)
    ensures
        live_variables(variables, stream).len() <= variables.len(),
        forall|i: int|
            0 <= i < live_variables(variables, stream).len() ==> {
                let kept = #[trigger] live_variables(variables, stream)[i];
                !destroyed_at_once(stream, kept.full_name) && variables.contains(kept)
            },
{
    let alive = |v: VariableView| !destroyed_at_once(stream, v.full_name);
    variables.lemma_filter_len(alive);
    assert forall|i: int| 0 <= i < live_variables(variables, stream).len() implies {
        let kept = #[trigger] live_variables(variables, stream)[i];
        !destroyed_at_once(stream, kept.full_name) && variables.contains(kept)
    } by {
        let kept = variables.filter(alive)[i];
        variables.lemma_filter_pred(alive, i);
        assert(alive(kept));
        assert(variables.filter(alive).contains(kept));
        variables.lemma_filter_contains_rev(alive, kept);
    }
}

/// A list in which no variable is destroyed at distance 0 is its own list
/// of live variables.
pub proof fn lemma_live_variables_fixed(variables: Seq<VariableView>, stream: Seq<InstructionView>)
    requires
        forall|i: int| 0 <= i < variables.len() ==> !destroyed_at_once(stream, (#[trigger] variables[i]).full_name),
    ensures
        live_variables(variables, stream) == variables,
    decreases variables.len(),
{
    reveal(Seq::filter);
    if variables.len() > 0 {
        let init = variables.drop_last();
        assert forall|i: int| 0 <= i < init.len() implies !destroyed_at_once(stream, (#[trigger] init[i]).full_name) by {
            assert(init[i] == variables[i]);
        }
        lemma_live_variables_fixed(init, stream);
        assert(variables.last() == variables[variables.len() - 1]);
        assert(init.push(variables.last()) =~= variables);
    }
}

/// What a use demands is at a distance of 0 or more, and is an argument
/// register of the table or the stack.
pub proof fn lemma_next_use(
    variable: VariableView,
    table: Seq<RegisterView>,
    stream: Seq<InstructionView>,
    from: int,
)
    requires
        0 <= from,
    ensures
        next_use(variable, table, stream, from) matches Some((target, distance)) ==> 0 <= distance && (target
            == PositionView::StackOffset(0) || exists|r: int, n: u8|
            0 <= r < table.len() && target == PositionView::Register((#[trigger] table[r]).name)
                && #[trigger] table[r].is_argument(n)),
    decreases stream.len() - from,
{
    if from < stream.len() {
        lemma_next_use(variable, table, stream, from + 1);
        if let Some(slot) = used_slot(stream[from], variable.full_name) {
            if slot <= u8::MAX {
                crate::search::lemma_first_index(
                    table.len() as int,
                    |i: int| table[i].has_tag(crate::register::RegisterTag::Argument(slot as u8)),
                );
            }
            if let Some(r) = argument_register(table, slot) {
                assert(table[r].is_argument(slot as u8));
            }
        }
    }
}

/// The variables of `variables` that are not destroyed at distance 0.
pub fn retain_live(variables: &Vec<Variable>, instructions: &Vec<MacroInstruction>) -> (res: Vec<Variable>)
    requires
        forall|i: int| 0 <= i < variables.len() ==> (#[trigger] variables[i]).costs_fit(),
    ensures
        variables_view(res@) == live_variables(variables_view(variables@), stream_view(instructions@)),
        forall|i: int| 0 <= i < res.len() ==> (#[trigger] res[i]).costs_fit(),
{
    let ghost all = variables_view(variables@);
    let ghost stream = stream_view(instructions@);
    let ghost alive = |v: VariableView| !destroyed_at_once(stream, v.full_name);
    let mut res: Vec<Variable> = Vec::new();
    let mut i: usize = 0;
    proof {
        reveal(Seq::filter);
        assert(all.subrange(0, 0) =~= Seq::empty());
    }
    while i < variables.len()
        invariant
            i <= variables.len(),
            all == variables_view(variables@),
            stream == stream_view(instructions@),
            alive == |v: VariableView| !destroyed_at_once(stream, v.full_name),
            variables_view(res@) == all.subrange(0, i as int).filter(alive),
            forall|j: int| 0 <= j < variables.len() ==> (#[trigger] variables[j]).costs_fit(),
            forall|j: int| 0 <= j < res.len() ==> (#[trigger] res[j]).costs_fit(),
        decreases variables.len() - i,
    {
        let destroyed = instructions.len() > 0 && match &instructions[0] {
            MacroInstruction::DestroyVariable(searched) => searched.full_name == variables[i].full_name,
            _ => false,
        };
        proof {
            reveal(Seq::filter);
            assert(all.subrange(0, i + 1).drop_last() == all.subrange(0, i as int));
            assert(all.subrange(0, i + 1).last() == all[i as int]);
            if instructions.len() > 0 {
                assert(stream[0] == instructions[0]@);
            }
            assert(destroyed == destroyed_at_once(stream, all[i as int].full_name));
        }
        if !destroyed {
            let ghost before = variables_view(res@);
            let kept = variables[i].clone();
            res.push(kept);
            assert(variables_view(res@) =~= before.push(all[i as int]));
        }
        i += 1;
    }
    assert(all.subrange(0, i as int) == all);
    res
}

/// What the use of `variable` in slot `slot` at distance `at` demands.
fn demand_of_use(variable: &Variable, registers: &Vec<Register>, slot: usize, at: usize) -> (res: Option<
    (DataPosition, usize),
>)
    ensures
        match res {
            Some((target, distance)) => use_demand(variable@, table_view(registers@), slot, at as int) == Some(
                (target@, distance as int),
            ),
            None => use_demand(variable@, table_view(registers@), slot, at as int) is None,
        },
{
    match find_argument_register(registers, slot) {
        Some(r) => {
            assert(table_view(registers@)[r as int] == registers[r as int]@);
            let name = registers[r].name.clone();
            let distance = if variable.is_in_register(&name) {
                0
            } else {
                at
            };
            Some((DataPosition::Register(name), distance))
        },
        None => if at == 0 {
            Some((DataPosition::StackOffset(0), 0))
        } else {
            None
        },
    }
}

/// Target and distance of `variable`, or nothing for a variable that no
/// use asks for and that has no location.
pub fn find_demand(variable: &Variable, registers: &Vec<Register>, instructions: &Vec<MacroInstruction>) -> (res:
    Option<(DataPosition, usize)>)
    requires
        variable.costs_fit(),
    ensures
        match res {
            Some((target, distance)) => demand(variable@, table_view(registers@), stream_view(instructions@))
                == Some((target@, distance as int)),
            None => demand(variable@, table_view(registers@), stream_view(instructions@)) is None,
        },
{
    let ghost table = table_view(registers@);
    let ghost stream = stream_view(instructions@);
    let mut at: usize = 0;
    while at < instructions.len()
        invariant
            at <= instructions.len(),
            table == table_view(registers@),
            stream == stream_view(instructions@),
            next_use(variable@, table, stream, 0) == next_use(variable@, table, stream, at as int),
        decreases instructions.len() - at,
    {
        assert(stream[at as int] == instructions[at as int]@);
        match &instructions[at] {
            MacroInstruction::UseVariableAsArgument(searched, slot) => {
                if searched.full_name == variable.full_name {
                    assert(used_slot(stream[at as int], variable@.full_name) == Some(*slot));
                    let found = demand_of_use(variable, registers, *slot, at);
                    if found.is_some() {
                        return found;
                    }
                }
            },
            _ => {},
        }
        at += 1;
    }
    match variable.get_cheapest_position() {
        Some(position) => Some((position, INFINITE_DISTANCE)),
        None => None,
    }
}

/// Puts `entry` into `sorted` behind the last demand that is not farther away.
fn insert_demand(sorted: &mut Vec<Demand>, entry: Demand)
    ensures
        demands_view(final(sorted)@) == insert_by_distance(demands_view(old(sorted)@), entry@),
{
    let ghost before = demands_view(sorted@);
    let mut at: usize = sorted.len();
    while at > 0 && sorted[at - 1].distance > entry.distance
        invariant
            at <= sorted.len(),
            before == demands_view(sorted@),
            forall|j: int| at <= j < sorted.len() ==> (#[trigger] before[j]).distance > entry@.distance,
        decreases at,
    {
        assert(before[at - 1] == sorted[at - 1]@);
        at -= 1;
    }
    proof {
        if at > 0 {
            assert(before[at - 1] == sorted[at - 1]@);
        }
        lemma_insert_by_distance(before, entry@, at as int);
    }
    sorted.insert(at, entry);
    assert(demands_view(sorted@) =~= before.insert(at as int, entry@));
}

/// The demands of the live variables, soonest first.
pub fn collect_demands(live: &Vec<Variable>, registers: &Vec<Register>, instructions: &Vec<MacroInstruction>) -> (res:
    Vec<Demand>)
    requires
        forall|i: int| 0 <= i < live.len() ==> (#[trigger] live[i]).costs_fit(),
    ensures
        demands_view(res@) == agenda(
            variables_view(live@),
            table_view(registers@),
            stream_view(instructions@),
        ),
{
    let ghost all = variables_view(live@);
    let ghost table = table_view(registers@);
    let ghost stream = stream_view(instructions@);
    let mut sorted: Vec<Demand> = Vec::new();
    let mut i: usize = 0;
    assert(all.subrange(0, 0) =~= Seq::empty());
    assert(demands_view(sorted@) =~= Seq::empty());
    while i < live.len()
        invariant
            i <= live.len(),
            all == variables_view(live@),
            table == table_view(registers@),
            stream == stream_view(instructions@),
            forall|j: int| 0 <= j < live.len() ==> (#[trigger] live[j]).costs_fit(),
            demands_view(sorted@) == agenda(all.subrange(0, i as int), table, stream),
        decreases live.len() - i,
    {
        proof {
            assert(all.subrange(0, i + 1).drop_last() == all.subrange(0, i as int));
            assert(all.subrange(0, i + 1).last() == live[i as int]@);
        }
        if let Some((target, distance)) = find_demand(&live[i], registers, instructions) {
            let entry = Demand { variable: i, target, distance };
            proof {
                let rest = demands(all.subrange(0, i as int), table, stream);
                assert(rest.push(entry@).drop_last() == rest);
            }
            insert_demand(&mut sorted, entry);
        }
        i += 1;
    }
    assert(all.subrange(0, i as int) == all);
    sorted
}

} // verus!
