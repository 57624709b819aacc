//! What the moves of the reconciliation do to the registers of the machine.
use vstd::prelude::*;
use crate::data_position::PositionView;
use crate::macro_instruction::InstructionView;
use crate::register::{lemma_tagged_exists, table_wf, RegisterTag, RegisterView};
use crate::search::lemma_first_index;
use crate::variable::VariableView;
use crate::variable_manager::assignment::{
    assign,
    lemma_assign_shape,
    lemma_least_wanted,
    Outcome,
};
use crate::variable_manager::demand::{agenda, demand, lemma_agenda, lemma_next_use, live_variables, DemandView};
use crate::variable_manager::{is_mover, moves, scratch_name};
use crate::variable_manager::shuffle::{
    first_free,
    is_free_move,
    is_idle,
    redirected,
    shuffle,
    MoveView,
    PlacementView,
    Step,
};

verus! {

/// The value that the register called `name` holds in `file`.
pub open spec fn read(file: spec_fn(Seq<char>) -> int, name: Seq<char>) -> int {
    file(name)
}

/// The registers after `step`: its target holds what its source held.
pub open spec fn after_step(file: spec_fn(Seq<char>) -> int, step: Step) -> spec_fn(Seq<char>) -> int {
    |name: Seq<char>|
        if name == step.target {
            file(step.source)
        } else {
            file(name)
        }
}

/// The registers after `steps` have been made one after the other.
pub open spec fn after_steps(file: spec_fn(Seq<char>) -> int, steps: Seq<Step>) -> spec_fn(Seq<char>) -> int
    decreases steps.len(),
{
    if steps.len() == 0 {
        file
    } else {
        after_steps(after_step(file, steps[0]), steps.skip(1))
    }
}

/// Whether no two moves write the same register.
pub open spec fn has_distinct_targets(moves: Seq<MoveView>) -> bool {
    forall|i: int, j: int| 0 <= i < j < moves.len() ==> (#[trigger] moves[i]).target != (#[trigger] moves[j]).target
}

/// Whether no move writes `register`.
pub open spec fn is_spared(moves: Seq<MoveView>, register: Seq<char>) -> bool {
    forall|j: int| 0 <= j < moves.len() ==> (#[trigger] moves[j]).target != register
}

/// Where the moves write distinct registers and one of them reads a
/// register that none writes, a move can be made at once.
pub proof fn lemma_chain_has_free_move(moves: Seq<MoveView>, register: Seq<char>)
    requires
        has_distinct_targets(moves),
        is_spared(moves, register),
        !is_idle(moves, register),
    ensures
        first_free(moves) is Some,
    decreases moves.len(),
{
    let free = |i: int| is_free_move(moves, i);
    lemma_first_index(moves.len() as int, free);
    let j = choose|j: int| 0 <= j < moves.len() && (#[trigger] moves[j]).source == register;
    if is_free_move(moves, j) {
        assert(free(j));
    } else {
        let reader = choose|k: int| 0 <= k < moves.len() && k != j && (#[trigger] moves[k]).source == moves[j].target;
        let fewer = moves.remove(j);
        let written = moves[j].target;
        assert forall|k: int| 0 <= k < fewer.len() implies #[trigger] fewer[k] == moves[if k < j {
            k
        } else {
            k + 1
        }] by {}
        assert(has_distinct_targets(fewer)) by {
            assert forall|a: int, b: int| 0 <= a < b < fewer.len() implies (#[trigger] fewer[a]).target != (#[trigger] fewer[b]).target by {
                let a0 = if a < j { a } else { a + 1 };
                let b0 = if b < j { b } else { b + 1 };
                assert(moves[a0].target != moves[b0].target);
            }
        }
        assert(is_spared(fewer, written)) by {
            assert forall|k: int| 0 <= k < fewer.len() implies (#[trigger] fewer[k]).target != written by {
                let k0 = if k < j { k } else { k + 1 };
                if k0 < j {
                    assert(moves[k0].target != moves[j].target);
                } else {
                    assert(moves[j].target != moves[k0].target);
                }
            }
        }
        assert(!is_idle(fewer, written)) by {
            let r = if reader < j { reader } else { reader - 1 };
            assert(fewer[r] == moves[reader]);
            assert(fewer[r].source == written);
        }
        lemma_chain_has_free_move(fewer, written);
        lemma_first_index(fewer.len() as int, |i: int| is_free_move(fewer, i));
        let i1 = first_free(fewer).unwrap();
        assert(is_free_move(fewer, i1));
        let i = if i1 < j { i1 } else { i1 + 1 };
        assert(fewer[i1] == moves[i]);
        assert(is_free_move(moves, i)) by {
            assert forall|k: int| 0 <= k < moves.len() && k != i implies (#[trigger] moves[k]).source != moves[i].target by {
                if k == j {
                    assert(moves[i].target != register);
                } else {
                    let k1 = if k < j { k } else { k - 1 };
                    assert(fewer[k1] == moves[k]);
                    assert(fewer[k1].source != fewer[i1].target);
                }
            }
        }
        assert(free(i));
    }
}

/// Whether the registers `end` are what the moves ask for, seen from the
/// registers `file`: the target of every move holds what its source held,
/// and every register that is neither written nor the relay holds what it held.
pub open spec fn is_moved(
    moves: Seq<MoveView>,
    scratch: Seq<char>,
    file: spec_fn(Seq<char>) -> int,
    end: spec_fn(Seq<char>) -> int,
) -> bool {
    &&& forall|k: int| 0 <= k < moves.len() ==> read(end, (#[trigger] moves[k]).target) == read(file, moves[k].source)
    &&& forall|name: Seq<char>| name != scratch && is_spared(moves, name) ==> #[trigger] read(end, name) == read(file, name)
}

/// Whether every placement puts the variable of a move into the target of
/// that move.
pub open spec fn is_all_placed(moves: Seq<MoveView>, placed: Seq<PlacementView>) -> bool {
    forall|k: int|
        0 <= k < placed.len() ==> exists|j: int|
            0 <= j < moves.len() && #[trigger] placed[k] == (PlacementView {
                variable: (#[trigger] moves[j]).variable,
                register: moves[j].target,
            })
}

/// The reconciliation is sound. Where the moves write distinct registers
/// and none of them writes the relay, the text moves all of them as if
/// they were made at the same time: afterwards the target of every move
/// holds what its source held before, every register that no move writes
/// holds what it held, the relay excepted, and no variable is left behind.
pub proof fn lemma_shuffle_moves_all_at_once(
    moves: Seq<MoveView>,
    scratch: Seq<char>,
    file: spec_fn(Seq<char>) -> int,
)
    requires
        has_distinct_targets(moves),
        is_spared(moves, scratch),
    ensures
        is_moved(moves, scratch, file, after_steps(file, shuffle(moves, scratch).steps)),
        is_all_placed(moves, shuffle(moves, scratch).placed),
    decreases moves.len(),
{
    let done = shuffle(moves, scratch);
    let end = after_steps(file, done.steps);
    if moves.len() > 0 {
        lemma_first_index(moves.len() as int, |i: int| is_free_move(moves, i));
        if first_free(moves) is None && !is_idle(moves, scratch) {
            lemma_chain_has_free_move(moves, scratch);
        }
        match first_free(moves) {
            Some(i) => {
                let made = moves[i];
                let step = Step { target: made.target, source: made.source };
                let file1 = after_step(file, step);
                let fewer = moves.remove(i);
                let rest = shuffle(fewer, scratch);
                assert(is_free_move(moves, i));
                assert(done.steps[0] == step);
                assert(done.steps.skip(1) =~= rest.steps);
                assert(end == after_steps(file1, rest.steps));
                assert forall|k: int| 0 <= k < fewer.len() implies #[trigger] fewer[k] == moves[if k < i {
                    k
                } else {
                    k + 1
                }] by {}
                lemma_remove_keeps(moves, i, scratch);
                lemma_remove_keeps(moves, i, made.target);
                assert(is_spared(fewer, made.target)) by {
                    assert forall|k: int| 0 <= k < fewer.len() implies (#[trigger] fewer[k]).target != made.target by {
                        let k0 = if k < i { k } else { k + 1 };
                        if k0 < i {
                            assert(moves[k0].target != moves[i].target);
                        } else {
                            assert(moves[i].target != moves[k0].target);
                        }
                    }
                }
                lemma_shuffle_moves_all_at_once(fewer, scratch, file1);
                assert forall|k: int| 0 <= k < moves.len() implies read(end, (#[trigger] moves[k]).target) == read(
                    file,
                    moves[k].source,
                ) by {
                    if k == i {
                        assert(read(end, made.target) == read(file1, made.target));
                    } else {
                        let k1 = if k < i { k } else { k - 1 };
                        assert(fewer[k1] == moves[k]);
                        assert(read(end, fewer[k1].target) == read(file1, fewer[k1].source));
                        assert(moves[k].source != made.target);
                    }
                }
                assert forall|name: Seq<char>| name != scratch && is_spared(moves, name) implies #[trigger] read(end, name)
                    == read(file, name) by {
                    lemma_remove_keeps(moves, i, name);
                    assert(read(end, name) == read(file1, name));
                    assert(moves[i].target != name);
                }
                assert forall|k: int| 0 <= k < done.placed.len() implies exists|j: int|
                    0 <= j < moves.len() && #[trigger] done.placed[k] == (PlacementView {
                        variable: (#[trigger] moves[j]).variable,
                        register: moves[j].target,
                    }) by {
                    if k == 0 {
                        assert(done.placed[0] == PlacementView { variable: moves[i].variable, register: moves[i].target });
                    } else {
                        assert(done.placed[k] == rest.placed[k - 1]);
                        let j1 = choose|j: int|
                            0 <= j < fewer.len() && #[trigger] rest.placed[k - 1] == (PlacementView {
                                variable: (#[trigger] fewer[j]).variable,
                                register: fewer[j].target,
                            });
                        let j = if j1 < i { j1 } else { j1 + 1 };
                        assert(fewer[j1] == moves[j]);
                    }
                }
            },
            None => {
                assert(is_idle(moves, scratch));
                let made = moves[0];
                let save = Step { target: scratch, source: made.target };
                let step = Step { target: made.target, source: made.source };
                let file1 = after_step(file, save);
                let file2 = after_step(file1, step);
                let tail = moves.remove(0);
                let fewer = redirected(tail, made.target, scratch);
                let rest = shuffle(fewer, scratch);
                assert(done.steps[0] == save);
                assert(done.steps.skip(1)[0] == step);
                assert(done.steps.skip(1).skip(1) =~= rest.steps);
                assert(end == after_steps(file1, done.steps.skip(1)));
                assert(after_steps(file1, done.steps.skip(1)) == after_steps(file2, done.steps.skip(1).skip(1)));
                assert(end == after_steps(file2, rest.steps));
                assert forall|k: int| 0 <= k < tail.len() implies #[trigger] tail[k] == moves[k + 1] by {}
                assert(has_distinct_targets(fewer)) by {
                    assert forall|a: int, b: int| 0 <= a < b < fewer.len() implies (#[trigger] fewer[a]).target != (#[trigger] fewer[b]).target by {
                        assert(tail[a] == moves[a + 1] && tail[b] == moves[b + 1]);
                        assert(moves[a + 1].target != moves[b + 1].target);
                    }
                }
                assert(is_spared(fewer, scratch)) by {
                    assert forall|k: int| 0 <= k < fewer.len() implies (#[trigger] fewer[k]).target != scratch by {
                        assert(tail[k] == moves[k + 1]);
                    }
                }
                assert(is_spared(fewer, made.target)) by {
                    assert forall|k: int| 0 <= k < fewer.len() implies (#[trigger] fewer[k]).target != made.target by {
                        assert(tail[k] == moves[k + 1]);
                        assert(moves[0].target != moves[k + 1].target);
                    }
                }
                lemma_shuffle_moves_all_at_once(fewer, scratch, file2);
                assert(made.source != scratch);
                assert(made.target != scratch);
                assert forall|k: int| 0 <= k < moves.len() implies read(end, (#[trigger] moves[k]).target) == read(
                    file,
                    moves[k].source,
                ) by {
                    if k == 0 {
                        assert(read(end, made.target) == read(file2, made.target));
                    } else {
                        assert(tail[k - 1] == moves[k]);
                        assert(read(end, fewer[k - 1].target) == read(file2, fewer[k - 1].source));
                        assert(moves[k].source != scratch);
                    }
                }
                assert forall|name: Seq<char>| name != scratch && is_spared(moves, name) implies #[trigger] read(end, name)
                    == read(file, name) by {
                    assert(is_spared(fewer, name)) by {
                        assert forall|k: int| 0 <= k < fewer.len() implies (#[trigger] fewer[k]).target != name by {
                            assert(tail[k] == moves[k + 1]);
                        }
                    }
                    assert(read(end, name) == read(file2, name));
                    assert(moves[0].target != name);
                }
                assert forall|k: int| 0 <= k < done.placed.len() implies exists|j: int|
                    0 <= j < moves.len() && #[trigger] done.placed[k] == (PlacementView {
                        variable: (#[trigger] moves[j]).variable,
                        register: moves[j].target,
                    }) by {
                    if k == 0 {
                        assert(done.placed[0] == PlacementView { variable: moves[0].variable, register: moves[0].target });
                    } else {
                        assert(done.placed[k] == rest.placed[k - 1]);
                        let j1 = choose|j: int|
                            0 <= j < fewer.len() && #[trigger] rest.placed[k - 1] == (PlacementView {
                                variable: (#[trigger] fewer[j]).variable,
                                register: fewer[j].target,
                            });
                        assert(tail[j1] == moves[j1 + 1]);
                        assert(fewer[j1].variable == moves[j1 + 1].variable);
                    }
                }
            },
        }
    }
}

/// Taking a move away keeps the targets distinct, and spares what was spared.
proof fn lemma_remove_keeps(moves: Seq<MoveView>, i: int, register: Seq<char>)
    requires
        0 <= i < moves.len(),
    ensures
        has_distinct_targets(moves) ==> has_distinct_targets(moves.remove(i)),
        is_spared(moves, register) ==> is_spared(moves.remove(i), register),
{
    let fewer = moves.remove(i);
    assert forall|k: int| 0 <= k < fewer.len() implies #[trigger] fewer[k] == moves[if k < i {
        k
    } else {
        k + 1
    }] by {}
    if has_distinct_targets(moves) {
        assert forall|a: int, b: int| 0 <= a < b < fewer.len() implies (#[trigger] fewer[a]).target != (#[trigger] fewer[b]).target by {
            let a0 = if a < i { a } else { a + 1 };
            let b0 = if b < i { b } else { b + 1 };
            assert(moves[a0].target != moves[b0].target);
        }
    }
    if is_spared(moves, register) {
        assert forall|k: int| 0 <= k < fewer.len() implies (#[trigger] fewer[k]).target != register by {
            let k0 = if k < i { k } else { k + 1 };
            assert(moves[k0].target != register);
        }
    }
}

/// Whether the scratch register is free to be the relay: the registers of
/// the table have distinct names, and a scratch register is neither a
/// general-purpose register nor an argument register.
pub open spec fn has_free_relay(table: Seq<RegisterView>) -> bool {
    &&& has_distinct_names(table)
    &&& forall|r: int|
        0 <= r < table.len() && (#[trigger] table[r]).has_tag(RegisterTag::Scratch) ==> !table[r].has_tag(
            RegisterTag::GeneralPurpose,
        )
    &&& forall|r: int, n: u8|
        0 <= r < table.len() && (#[trigger] table[r]).has_tag(RegisterTag::Scratch) ==> !#[trigger] table[r].is_argument(n)
}

/// Every register is claimed once at most, and a demand claims either the
/// register that it names or a general-purpose register.
pub proof fn lemma_claims(
    table: Seq<RegisterView>,
    live: Seq<VariableView>,
    agenda: Seq<DemandView>,
    stack_offset: int,
    n: int,
)
    requires
        0 <= n <= agenda.len(),
        table.len() <= usize::MAX,
    ensures
        forall|k: int|
            0 <= k < n ==> (#[trigger] assign(table, live, agenda, stack_offset, n).outcomes[k] matches Outcome::Claimed(r)
                ==> r < table.len() && assign(table, live, agenda, stack_offset, n).claimed[r as int] && (table[r as int].has_tag(
                RegisterTag::GeneralPurpose,
            ) || agenda[k].target == PositionView::Register(table[r as int].name))),
        forall|j: int, k: int|
            0 <= j < k < n ==> (#[trigger] assign(table, live, agenda, stack_offset, n).outcomes[j] matches Outcome::Claimed(
                first,
            ) ==> (#[trigger] assign(table, live, agenda, stack_offset, n).outcomes[k] matches Outcome::Claimed(
                second,
            ) ==> first != second)),
    decreases n,
{
    lemma_assign_shape(table, live, agenda, stack_offset, n);
    if n > 0 {
        lemma_claims(table, live, agenda, stack_offset, n - 1);
        lemma_assign_shape(table, live, agenda, stack_offset, n - 1);
        let before = assign(table, live, agenda, stack_offset, n - 1);
        let after = assign(table, live, agenda, stack_offset, n);
        let entry = agenda[n - 1];
        assert forall|k: int| 0 <= k < n - 1 implies #[trigger] after.outcomes[k] == before.outcomes[k] by {}
        if let PositionView::Register(name) = entry.target {
            lemma_least_wanted(table, before.claimed, agenda, table.len() as int);
            lemma_first_index(table.len() as int, |i: int| !before.claimed[i] && table[i].name == name);
        }
    }
}

/// Whether move `pending` comes from demand `k`: the demand claimed the
/// target of the move for the variable of the move, which has its value
/// in another register.
pub open spec fn is_origin(
    live: Seq<VariableView>,
    agenda: Seq<DemandView>,
    outcomes: Seq<Outcome>,
    table: Seq<RegisterView>,
    pending: MoveView,
    k: int,
) -> bool {
    &&& outcomes[k] matches Outcome::Claimed(r) && pending.target == table[r as int].name
    &&& agenda[k].variable == pending.variable
    &&& is_mover(live[agenda[k].variable], outcomes[k], table)
}

/// Whether move `pending` comes from one of the first `n` demands.
pub open spec fn has_origin(
    live: Seq<VariableView>,
    agenda: Seq<DemandView>,
    outcomes: Seq<Outcome>,
    table: Seq<RegisterView>,
    pending: MoveView,
    n: int,
) -> bool {
    exists|k: int| 0 <= k < n && #[trigger] is_origin(live, agenda, outcomes, table, pending, k)
}

/// Every move comes from a demand.
pub proof fn lemma_moves_origin(
    live: Seq<VariableView>,
    agenda: Seq<DemandView>,
    outcomes: Seq<Outcome>,
    table: Seq<RegisterView>,
    n: int,
)
    requires
        0 <= n <= agenda.len(),
    ensures
        forall|a: int|
            0 <= a < moves(live, agenda, outcomes, table, n).len() ==> has_origin(
                live,
                agenda,
                outcomes,
                table,
                #[trigger] moves(live, agenda, outcomes, table, n)[a],
                n,
            ),
    decreases n,
{
    if n > 0 {
        lemma_moves_origin(live, agenda, outcomes, table, n - 1);
        let rest = moves(live, agenda, outcomes, table, n - 1);
        let all = moves(live, agenda, outcomes, table, n);
        assert forall|a: int| 0 <= a < all.len() implies has_origin(live, agenda, outcomes, table, #[trigger] all[a], n) by {
            if a < rest.len() {
                assert(all[a] == rest[a]);
                assert(has_origin(live, agenda, outcomes, table, rest[a], n - 1));
                let k = choose|k: int| 0 <= k < n - 1 && #[trigger] is_origin(live, agenda, outcomes, table, rest[a], k);
                assert(is_origin(live, agenda, outcomes, table, all[a], k));
            } else {
                assert(is_origin(live, agenda, outcomes, table, all[a], n - 1));
            }
        }
    }
}

/// Whether no register is claimed by two of the outcomes.
pub open spec fn has_distinct_claims(outcomes: Seq<Outcome>) -> bool {
    forall|j: int, k: int|
        0 <= j < k < outcomes.len() ==> ((#[trigger] outcomes[j]) matches Outcome::Claimed(first) ==> ((#[trigger] outcomes[k]) matches Outcome::Claimed(
            second,
        ) ==> first != second))
}

/// Whether the registers of the table have distinct names.
pub open spec fn has_distinct_names(table: Seq<RegisterView>) -> bool {
    forall|i: int, j: int| 0 <= i < j < table.len() ==> (#[trigger] table[i]).name != (#[trigger] table[j]).name
}

/// Two registers of a table with distinct names that bear the same name are one.
pub proof fn lemma_same_name(table: Seq<RegisterView>, i: int, j: int)
    requires
        has_distinct_names(table),
        0 <= i < table.len(),
        0 <= j < table.len(),
        table[i].name == table[j].name,
    ensures
        i == j,
{
    if i < j {
        assert(table[i].name != table[j].name);
    } else if j < i {
        assert(table[j].name != table[i].name);
    }
}

/// Where no register is claimed twice and the registers have distinct
/// names, the moves write distinct registers.
pub proof fn lemma_moves_distinct(
    live: Seq<VariableView>,
    agenda: Seq<DemandView>,
    outcomes: Seq<Outcome>,
    table: Seq<RegisterView>,
    n: int,
)
    requires
        0 <= n <= agenda.len(),
        n <= outcomes.len(),
        has_distinct_claims(outcomes),
        has_distinct_names(table),
        forall|k: int| 0 <= k < n ==> ((#[trigger] outcomes[k]) matches Outcome::Claimed(r) ==> r < table.len()),
    ensures
        has_distinct_targets(moves(live, agenda, outcomes, table, n)),
    decreases n,
{
    if n > 0 {
        lemma_moves_distinct(live, agenda, outcomes, table, n - 1);
        lemma_moves_origin(live, agenda, outcomes, table, n - 1);
        let rest = moves(live, agenda, outcomes, table, n - 1);
        let all = moves(live, agenda, outcomes, table, n);
        if all.len() > rest.len() {
            let r = outcomes[n - 1]->Claimed_0;
            assert(all[all.len() - 1].target == table[r as int].name);
            assert forall|a: int, b: int| 0 <= a < b < all.len() implies (#[trigger] all[a]).target != (#[trigger] all[b]).target by {
                assert(all[a] == rest[a]);
                if b < rest.len() {
                    assert(all[b] == rest[b]);
                } else {
                    assert(has_origin(live, agenda, outcomes, table, rest[a], n - 1));
                    let k = choose|k: int| 0 <= k < n - 1 && #[trigger] is_origin(live, agenda, outcomes, table, rest[a], k);
                    let q = outcomes[k]->Claimed_0;
                    assert(outcomes[k] is Claimed && outcomes[n - 1] is Claimed);
                    assert(q != r);
                    if rest[a].target == table[r as int].name {
                        lemma_same_name(table, q as int, r as int);
                    }
                }
            }
        } else {
            assert(all =~= rest);
        }
    }
}

/// A demand that makes its variable change its register does not claim
/// the scratch register, where that is free to be the relay.
pub proof fn lemma_mover_spares_relay(
    table: Seq<RegisterView>,
    live: Seq<VariableView>,
    stream: Seq<InstructionView>,
    stack_offset: int,
    k: int,
)
    requires
        0 <= k < agenda(live, table, stream).len(),
        table.len() <= usize::MAX,
        table_wf(table),
        has_free_relay(table),
        is_mover(
            live[agenda(live, table, stream)[k].variable],
            assign(
                table,
                live,
                agenda(live, table, stream),
                stack_offset,
                agenda(live, table, stream).len() as int,
            ).outcomes[k],
            table,
        ),
    ensures
        ({
            let agenda = agenda(live, table, stream);
            let outcomes = assign(table, live, agenda, stack_offset, agenda.len() as int).outcomes;
            outcomes[k] matches Outcome::Claimed(r) && r < table.len() && table[r as int].name != scratch_name(table)
        }),
{
    let agenda = agenda(live, table, stream);
    let full = agenda.len() as int;
    let outcomes = assign(table, live, agenda, stack_offset, full).outcomes;
    lemma_claims(table, live, agenda, stack_offset, full);
    lemma_agenda(live, table, stream);
    lemma_tagged_exists(table, RegisterTag::Scratch);
    let s = crate::register::first_tagged(table, RegisterTag::Scratch).unwrap();
    let entry = agenda[k];
    let v = entry.variable;
    let r = outcomes[k]->Claimed_0;
    assert(r < table.len());
    assert(has_distinct_names(table));
    if !table[r as int].has_tag(RegisterTag::GeneralPurpose) {
        assert(entry.target == PositionView::Register(table[r as int].name));
        assert(demand(live[v], table, stream) == Some((entry.target, entry.distance)));
        lemma_next_use(live[v], table, stream, 0);
        let source = live[v].value_register().unwrap();
        assert(source != table[r as int].name);
        let (q, slot) = choose|q: int, slot: u8|
            0 <= q < table.len() && entry.target == PositionView::Register((#[trigger] table[q]).name)
                && #[trigger] table[q].is_argument(slot);
        lemma_same_name(table, q, r as int);
        assert(table[r as int].is_argument(slot));
    }
    assert(r != s);
    if table[r as int].name == table[s].name {
        lemma_same_name(table, r as int, s);
    }
}

/// The moves of a plan write distinct registers, and none of them writes
/// the scratch register, where that is free to be the relay.
pub proof fn lemma_moves_of_plan(
    table: Seq<RegisterView>,
    live: Seq<VariableView>,
    stream: Seq<InstructionView>,
    stack_offset: int,
)
    requires
        table.len() <= usize::MAX,
        table_wf(table),
        has_free_relay(table),
    ensures
        ({
            let agenda = agenda(live, table, stream);
            let outcomes = assign(table, live, agenda, stack_offset, agenda.len() as int).outcomes;
            let moves = moves(live, agenda, outcomes, table, agenda.len() as int);
            has_distinct_targets(moves) && is_spared(moves, scratch_name(table))
        }),
{
    let agenda = agenda(live, table, stream);
    let full = agenda.len() as int;
    let outcomes = assign(table, live, agenda, stack_offset, full).outcomes;
    let moves = moves(live, agenda, outcomes, table, full);
    lemma_claims(table, live, agenda, stack_offset, full);
    lemma_assign_shape(table, live, agenda, stack_offset, full);
    assert(has_distinct_names(table));
    lemma_moves_distinct(live, agenda, outcomes, table, full);
    lemma_moves_origin(live, agenda, outcomes, table, full);
    assert forall|a: int| 0 <= a < moves.len() implies (#[trigger] moves[a]).target != scratch_name(table) by {
        assert(has_origin(live, agenda, outcomes, table, moves[a], full));
        let k = choose|k: int| 0 <= k < full && #[trigger] is_origin(live, agenda, outcomes, table, moves[a], k);
        lemma_mover_spares_relay(table, live, stream, stack_offset, k);
    }
}

/// The moves of a plan are sound where the scratch register is free to be
/// the relay: the text moves every variable that changes its register as
/// if all moves were made at the same time, and leaves every other
/// register but the relay as it was.
pub proof fn lemma_plan_moves_all_at_once(
    variables: Seq<VariableView>,
    table: Seq<RegisterView>,
    stream: Seq<InstructionView>,
    stack_offset: int,
    file: spec_fn(Seq<char>) -> int,
)
    requires
        table.len() <= usize::MAX,
        table_wf(table),
        has_free_relay(table),
    ensures
        ({
            let live = live_variables(variables, stream);
            let agenda = agenda(live, table, stream);
            let outcomes = assign(table, live, agenda, stack_offset, agenda.len() as int).outcomes;
            let moves = moves(live, agenda, outcomes, table, agenda.len() as int);
            let shuffled = shuffle(moves, scratch_name(table));
            &&& is_moved(moves, scratch_name(table), file, after_steps(file, shuffled.steps))
            &&& is_all_placed(moves, shuffled.placed)
        }),
{
    let live = live_variables(variables, stream);
    let agenda = agenda(live, table, stream);
    let outcomes = assign(table, live, agenda, stack_offset, agenda.len() as int).outcomes;
    let moves = moves(live, agenda, outcomes, table, agenda.len() as int);
    lemma_moves_of_plan(table, live, stream, stack_offset);
    lemma_shuffle_moves_all_at_once(moves, scratch_name(table), file);
}

} // verus!
