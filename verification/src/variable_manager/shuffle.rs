//! Register reconciliation: the pending register-to-register moves are
//! put in an order in which none overwrites a value that is still needed,
//! with the scratch register as the relay where they form a cycle.
use vstd::prelude::*;
use crate::search::{first_index, lemma_first_index, lemma_first_index_is, lemma_first_index_none};
use crate::text::{move_line, push_move_line};

verus! {

/// The value of variable `variable` has to get from the register `source`
/// into the register `target`.
#[derive(Debug)]
pub struct Move {
    pub variable: usize,
    pub source: String,
    pub target: String,
}

/// The mathematical value of a [`Move`].
pub struct MoveView {
    pub variable: int,
    pub source: Seq<char>,
    pub target: Seq<char>,
}

impl View for Move {
    type V = MoveView;

    open spec fn view(&self) -> MoveView {
        MoveView { variable: self.variable as int, source: self.source@, target: self.target@ }
    }
}

/// The register in which variable `variable` has its value in the end.
#[derive(Debug)]
pub struct Placement {
    pub variable: usize,
    pub register: String,
}

/// The mathematical value of a [`Placement`].
pub struct PlacementView {
    pub variable: int,
    pub register: Seq<char>,
}

impl View for Placement {
    type V = PlacementView;

    open spec fn view(&self) -> PlacementView {
        PlacementView { variable: self.variable as int, register: self.register@ }
    }
}

/// The mathematical values of a list of moves.
pub open spec fn moves_view(moves: Seq<Move>) -> Seq<MoveView> {
    moves.map_values(|m: Move| m@)
}

/// The mathematical values of a list of placements.
pub open spec fn placements_view(placements: Seq<Placement>) -> Seq<PlacementView> {
    placements.map_values(|p: Placement| p@)
}

/// One instruction of the reconciliation: the register `source` is copied
/// into the register `target`.
pub struct Step {
    pub target: Seq<char>,
    pub source: Seq<char>,
}

/// What the reconciliation gives: the moves in the order in which they are
/// made, and where the variables are after them.
pub struct Shuffled {
    pub steps: Seq<Step>,
    pub placed: Seq<PlacementView>,
}

/// The text of `steps`: one line for each.
pub open spec fn steps_text(steps: Seq<Step>) -> Seq<char>
    decreases steps.len(),
{
    if steps.len() == 0 {
        Seq::empty()
    } else {
        move_line(steps[0].target, steps[0].source) + steps_text(steps.skip(1))
    }
}

impl Shuffled {
    /// The assembly text of the moves.
    pub open spec fn text(self) -> Seq<char> {
        steps_text(self.steps)
    }
}

/// The text of steps is the line of the first, then the text of the rest.
pub proof fn lemma_steps_text(steps: Seq<Step>)
    ensures
        steps.len() == 0 ==> steps_text(steps) == Seq::<char>::empty(),
        steps.len() > 0 ==> steps_text(steps) == move_line(steps[0].target, steps[0].source) + steps_text(
            steps.skip(1),
        ),
{
}

/// Whether move `i` can be made at once: no other pending move still reads
/// the register that it writes.
pub open spec fn is_free_move(moves: Seq<MoveView>, i: int) -> bool {
    forall|j: int| 0 <= j < moves.len() && j != i ==> (#[trigger] moves[j]).source != moves[i].target
}

/// The first pending move that can be made at once.
pub open spec fn first_free(moves: Seq<MoveView>) -> Option<int> {
    first_index(moves.len() as int, |i: int| is_free_move(moves, i))
}

/// Whether no pending move reads `register`.
pub open spec fn is_idle(moves: Seq<MoveView>, register: Seq<char>) -> bool {
    forall|j: int| 0 <= j < moves.len() ==> (#[trigger] moves[j]).source != register
}

/// One move, reading `to` where it read `from`.
pub open spec fn redirected_move(pending: MoveView, from: Seq<char>, to: Seq<char>) -> MoveView {
    if pending.source == from {
        MoveView { source: to, ..pending }
    } else {
        pending
    }
}

/// The moves, each reading `to` where it read `from`.
pub open spec fn redirected(moves: Seq<MoveView>, from: Seq<char>, to: Seq<char>) -> Seq<MoveView> {
    moves.map_values(|m: MoveView| redirected_move(m, from, to))
}

/// Where the variables of `moves` are when none of the moves is made.
pub open spec fn left_in_place(moves: Seq<MoveView>) -> Seq<PlacementView> {
    moves.map_values(|m: MoveView| PlacementView { variable: m.variable, register: m.source })
}

/// The reconciliation of `moves` with `scratch` as the relay.
///
/// As long as a move can be made at once, the first such move is made.
/// When none can, the pending moves hold a cycle. If no pending move reads
/// the scratch register, the register that the first move writes is saved
/// to the scratch register, the moves that read it read the scratch
/// register instead, and the first move is made. Otherwise the relay is
/// taken, and the moves that are left are not made: their variables stay
/// where they are.
pub open spec fn shuffle(moves: Seq<MoveView>, scratch: Seq<char>) -> Shuffled
    decreases moves.len(),
{
    if moves.len() == 0 {
        Shuffled { steps: Seq::empty(), placed: Seq::empty() }
    } else {
        match first_free(moves) {
            Some(i) => {
                proof {
                    lemma_first_index(moves.len() as int, |i: int| is_free_move(moves, i));
                }
                let rest = shuffle(moves.remove(i), scratch);
                Shuffled {
                    steps: seq![Step { target: moves[i].target, source: moves[i].source }] + rest.steps,
                    placed: seq![PlacementView { variable: moves[i].variable, register: moves[i].target }]
                        + rest.placed,
                }
            },
            None => if is_idle(moves, scratch) {
                let rest = shuffle(redirected(moves.remove(0), moves[0].target, scratch), scratch);
                Shuffled {
                    steps: seq![
                        Step { target: scratch, source: moves[0].target },
                        Step { target: moves[0].target, source: moves[0].source },
                    ] + rest.steps,
                    placed: seq![PlacementView { variable: moves[0].variable, register: moves[0].target }]
                        + rest.placed,
                }
            } else {
                Shuffled { steps: Seq::empty(), placed: left_in_place(moves) }
            },
        }
    }
}

/// Every variable that the reconciliation places is the variable of a move.
pub proof fn lemma_shuffle_variables(moves: Seq<MoveView>, scratch: Seq<char>, bound: int)
    requires
        forall|k: int| 0 <= k < moves.len() ==> 0 <= (#[trigger] moves[k]).variable < bound,
    ensures
        shuffle(moves, scratch).placed.len() == moves.len(),
        forall|k: int|
            0 <= k < shuffle(moves, scratch).placed.len() ==> 0 <= (#[trigger] shuffle(
                moves,
                scratch,
            ).placed[k]).variable < bound,
    decreases moves.len(),
{
    if moves.len() > 0 {
        match first_free(moves) {
            Some(i) => {
                lemma_first_index(moves.len() as int, |i: int| is_free_move(moves, i));
                lemma_shuffle_variables(moves.remove(i), scratch, bound);
            },
            None => {
                if is_idle(moves, scratch) {
                    lemma_shuffle_variables(redirected(moves.remove(0), moves[0].target, scratch), scratch, bound);
                }
            },
        }
    }
}

/// A variable that no move is for is not placed by the reconciliation.
pub proof fn lemma_shuffle_spares(moves: Seq<MoveView>, scratch: Seq<char>, variable: int)
    requires
        forall|k: int| 0 <= k < moves.len() ==> (#[trigger] moves[k]).variable != variable,
    ensures
        forall|k: int|
            0 <= k < shuffle(moves, scratch).placed.len() ==> (#[trigger] shuffle(moves, scratch).placed[k]).variable
                != variable,
    decreases moves.len(),
{
    let placed = shuffle(moves, scratch).placed;
    if moves.len() > 0 {
        match first_free(moves) {
            Some(i) => {
                lemma_first_index(moves.len() as int, |i: int| is_free_move(moves, i));
                let fewer = moves.remove(i);
                assert forall|k: int| 0 <= k < fewer.len() implies (#[trigger] fewer[k]).variable != variable by {
                    if k < i {
                        assert(fewer[k] == moves[k]);
                    } else {
                        assert(fewer[k] == moves[k + 1]);
                    }
                }
                lemma_shuffle_spares(fewer, scratch, variable);
                let rest = shuffle(fewer, scratch).placed;
                assert forall|k: int| 0 <= k < placed.len() implies (#[trigger] placed[k]).variable != variable by {
                    if k > 0 {
                        assert(placed[k] == rest[k - 1]);
                    }
                }
            },
            None => {
                if is_idle(moves, scratch) {
                    let fewer = redirected(moves.remove(0), moves[0].target, scratch);
                    assert forall|k: int| 0 <= k < fewer.len() implies (#[trigger] fewer[k]).variable != variable by {
                        assert(moves.remove(0)[k] == moves[k + 1]);
                    }
                    lemma_shuffle_spares(fewer, scratch, variable);
                    let rest = shuffle(fewer, scratch).placed;
                    assert forall|k: int| 0 <= k < placed.len() implies (#[trigger] placed[k]).variable != variable by {
                        if k > 0 {
                            assert(placed[k] == rest[k - 1]);
                        }
                    }
                } else {
                    assert forall|k: int| 0 <= k < placed.len() implies (#[trigger] placed[k]).variable != variable by {
                        assert(placed[k].variable == moves[k].variable);
                    }
                }
            },
        }
    }
}

/// Whether move `i` can be made at once.
fn can_move_at_once(moves: &Vec<Move>, i: usize) -> (res: bool)
    requires
        i < moves.len(),
    ensures
        res == is_free_move(moves_view(moves@), i as int),
{
    let ghost all = moves_view(moves@);
    let mut j: usize = 0;
    while j < moves.len()
        invariant
            j <= moves.len(),
            i < moves.len(),
            all == moves_view(moves@),
            forall|k: int| 0 <= k < j && k != i ==> (#[trigger] all[k]).source != all[i as int].target,
        decreases moves.len() - j,
    {
        assert(all[j as int] == moves[j as int]@);
        assert(all[i as int] == moves[i as int]@);
        if j != i && moves[j].source == moves[i].target {
            return false;
        }
        j += 1;
    }
    true
}

/// Finds the first pending move that can be made at once.
fn find_free(moves: &Vec<Move>) -> (res: Option<usize>)
    ensures
        match res {
            Some(i) => i < moves.len() && first_free(moves_view(moves@)) == Some(i as int),
            None => first_free(moves_view(moves@)) is None,
        },
{
    let ghost all = moves_view(moves@);
    let ghost p = |i: int| is_free_move(all, i);
    let mut i: usize = 0;
    while i < moves.len()
        invariant
            i <= moves.len(),
            all == moves_view(moves@),
            p == |i: int| is_free_move(all, i),
            forall|j: int| 0 <= j < i ==> !#[trigger] p(j),
        decreases moves.len() - i,
    {
        if can_move_at_once(moves, i) {
            proof {
                lemma_first_index_is(all.len() as int, p, i as int);
            }
            return Some(i);
        }
        i += 1;
    }
    proof {
        lemma_first_index_none(all.len() as int, p);
    }
    None
}

/// Whether no pending move reads `register`.
fn nothing_reads(moves: &Vec<Move>, register: &String) -> (res: bool)
    ensures
        res == is_idle(moves_view(moves@), register@),
{
    let ghost all = moves_view(moves@);
    let mut j: usize = 0;
    while j < moves.len()
        invariant
            j <= moves.len(),
            all == moves_view(moves@),
            forall|k: int| 0 <= k < j ==> (#[trigger] all[k]).source != register@,
        decreases moves.len() - j,
    {
        assert(all[j as int] == moves[j as int]@);
        if moves[j].source == *register {
            return false;
        }
        j += 1;
    }
    true
}

/// Makes every move that reads `from` read `to` instead.
fn redirect(moves: Vec<Move>, from: &String, to: &String) -> (res: Vec<Move>)
    ensures
        moves_view(res@) == redirected(moves_view(moves@), from@, to@),
{
    let ghost all = moves_view(moves@);
    let mut res: Vec<Move> = Vec::new();
    let mut j: usize = 0;
    while j < moves.len()
        invariant
            j <= moves.len(),
            all == moves_view(moves@),
            res.len() == j,
            forall|k: int| 0 <= k < j ==> (#[trigger] res[k])@ == redirected_move(all[k], from@, to@),
        decreases moves.len() - j,
    {
        assert(all[j as int] == moves[j as int]@);
        let pending = &moves[j];
        let source = if pending.source == *from {
            to.clone()
        } else {
            pending.source.clone()
        };
        res.push(Move { variable: pending.variable, source, target: pending.target.clone() });
        j += 1;
    }
    assert(moves_view(res@) =~= redirected(all, from@, to@));
    res
}

/// Where the variables of `moves` are when none of the moves is made.
fn leave_in_place(moves: &Vec<Move>, placed: &mut Vec<Placement>)
    ensures
        placements_view(final(placed)@) == placements_view(old(placed)@) + left_in_place(moves_view(moves@)),
{
    let ghost all = moves_view(moves@);
    let ghost before = placements_view(placed@);
    let mut j: usize = 0;
    assert(placements_view(placed@) =~= before + left_in_place(all).subrange(0, 0));
    while j < moves.len()
        invariant
            j <= moves.len(),
            all == moves_view(moves@),
            placements_view(placed@) == before + left_in_place(all).subrange(0, j as int),
        decreases moves.len() - j,
    {
        assert(all[j as int] == moves[j as int]@);
        let ghost so_far = placements_view(placed@);
        let placement = Placement { variable: moves[j].variable, register: moves[j].source.clone() };
        placed.push(placement);
        assert(placements_view(placed@) =~= so_far.push(placement@));
        assert(so_far.push(placement@) =~= before + left_in_place(all).subrange(0, j + 1));
        j += 1;
    }
    assert(left_in_place(all).subrange(0, j as int) =~= left_in_place(all));
}

/// Appends the text that makes `moves` to `text`, with the register
/// `scratch` as the relay, and returns where the variables are after it.
pub fn shuffle_registers(text: &mut String, moves: Vec<Move>, scratch: &String) -> (placed: Vec<Placement>)
    ensures
        final(text)@ == old(text)@ + shuffle(moves_view(moves@), scratch@).text(),
        placements_view(placed@) == shuffle(moves_view(moves@), scratch@).placed,
{
    let ghost whole = shuffle(moves_view(moves@), scratch@);
    let mut pending = moves;
    let mut placed: Vec<Placement> = Vec::new();
    assert(text@ + whole.text() =~= old(text)@ + whole.text());
    assert(placements_view(placed@) + whole.placed =~= whole.placed);
    while pending.len() > 0
        invariant
            text@ + shuffle(moves_view(pending@), scratch@).text() == old(text)@ + whole.text(),
            placements_view(placed@) + shuffle(moves_view(pending@), scratch@).placed == whole.placed,
        decreases pending.len(),
    {
        let ghost all = moves_view(pending@);
        let ghost text_before = text@;
        let ghost placed_before = placements_view(placed@);
        let free = find_free(&pending);
        let unblocked = match free {
            Some(_) => true,
            None => nothing_reads(&pending, scratch),
        };
        if !unblocked {
            leave_in_place(&pending, &mut placed);
            pending = Vec::new();
            proof {
                assert(moves_view(pending@) =~= Seq::empty());
                assert(text@ + shuffle(moves_view(pending@), scratch@).text() =~= text_before + shuffle(all, scratch@).text());
                assert(placements_view(placed@) + shuffle(moves_view(pending@), scratch@).placed =~= placed_before
                    + shuffle(all, scratch@).placed);
            }
        } else {
            let i = match free {
                Some(i) => i,
                None => 0,
            };
            assert(all[i as int] == pending[i as int]@);
            let made = pending.remove(i);
            assert(moves_view(pending@) =~= all.remove(i as int));
            if free.is_none() {
                push_move_line(text, scratch, &made.target);
                pending = redirect(pending, &made.target, scratch);
            }
            push_move_line(text, &made.target, &made.source);
            let placement = Placement { variable: made.variable, register: made.target };
            placed.push(placement);
            proof {
                let rest = shuffle(moves_view(pending@), scratch@);
                lemma_steps_text(shuffle(all, scratch@).steps);
                if free.is_none() {
                    lemma_steps_text(shuffle(all, scratch@).steps.skip(1));
                    assert(shuffle(all, scratch@).steps.skip(1).skip(1) =~= rest.steps);
                } else {
                    assert(shuffle(all, scratch@).steps.skip(1) =~= rest.steps);
                }
                assert(placements_view(placed@) =~= placed_before.push(placement@));
                assert(text@ + rest.text() =~= text_before + shuffle(all, scratch@).text());
                assert(placements_view(placed@) + rest.placed =~= placed_before + shuffle(all, scratch@).placed);
            }
        }
    }
    assert(text@ + shuffle(moves_view(pending@), scratch@).text() =~= text@);
    assert(placements_view(placed@) + shuffle(moves_view(pending@), scratch@).placed =~= placements_view(placed@));
    placed
}

} // verus!
