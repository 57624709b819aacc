//! A variable of the compiled program and the places that hold its value.
use vstd::prelude::*;
use crate::arch::Arch;
use crate::data_position::{DataPosition, PositionView};

verus! {

/// A symbolic value: its name and every location that holds it right now.
#[derive(Debug)]
pub struct Variable {
    /// The full name of the variable (e.g. my_app:main.rsl:Main:loop1:myVar).
    pub full_name: String,
    /// All the positions the data is currently stored in (it might be in a
    /// register and on the stack at the same time).
    pub positions: Vec<DataPosition>,
}

/// The mathematical value of a [`Variable`].
pub struct VariableView {
    pub full_name: Seq<char>,
    pub positions: Seq<PositionView>,
}

/// The mathematical values of a list of locations.
pub open spec fn positions_view(positions: Seq<DataPosition>) -> Seq<PositionView> {
    positions.map_values(|p: DataPosition| p@)
}

/// The mathematical value of a location that may be missing.
pub open spec fn optional_view(position: Option<DataPosition>) -> Option<PositionView> {
    match position {
        Some(p) => Some(p@),
        None => None,
    }
}

/// The cheapest location among `positions`: one of least cost, of these a
/// direct stack slot before an indirect one, and otherwise the first.
pub open spec fn cheapest_of(positions: Seq<PositionView>) -> Option<PositionView>
    decreases positions.len(),
{
    if positions.len() == 0 {
        None
    } else {
        match cheapest_of(positions.drop_last()) {
            Some(best) => if positions.last().is_preferred_to(best) {
                Some(positions.last())
            } else {
                Some(best)
            },
            None => Some(positions.last()),
        }
    }
}

/// Whether `best`, which stands at index `i` of `positions`, is the
/// cheapest of them: no location is preferred to it, and it is preferred to
/// every location before it.
pub open spec fn is_cheapest_at(positions: Seq<PositionView>, best: PositionView, i: int) -> bool {
    &&& 0 <= i < positions.len() && positions[i] == best
    &&& forall|j: int| 0 <= j < positions.len() ==> !(#[trigger] positions[j]).is_preferred_to(best)
    &&& forall|j: int| 0 <= j < i ==> best.is_preferred_to(#[trigger] positions[j])
}

/// How a stack location ranks when a variable falls back to the stack: a
/// direct slot before every indirect one, indirect ones by the cost of the
/// location that holds the offset.
pub open spec fn stack_rank(position: PositionView) -> nat {
    match position {
        PositionView::StackOffsetAt(inner) => 1 + inner.cost(),
        _ => 0,
    }
}

/// The stack location to fall back to: the last of the best-ranked stack
/// locations among `positions`.
pub open spec fn best_stack_of(positions: Seq<PositionView>) -> Option<PositionView>
    decreases positions.len(),
{
    if positions.len() == 0 {
        None
    } else if !positions.last().is_stack() {
        best_stack_of(positions.drop_last())
    } else {
        match best_stack_of(positions.drop_last()) {
            Some(best) => if stack_rank(positions.last()) <= stack_rank(best) {
                Some(positions.last())
            } else {
                Some(best)
            },
            None => Some(positions.last()),
        }
    }
}

impl VariableView {
    /// The cheapest location: one of least cost, of these a direct stack
    /// slot before an indirect one, and otherwise the first.
    pub open spec fn cheapest(self) -> Option<PositionView> {
        cheapest_of(self.positions)
    }

    /// The name of the register in which the variable has its value: its
    /// cheapest location, where that is a register and not a mere request.
    pub open spec fn value_register(self) -> Option<Seq<char>> {
        match self.cheapest() {
            Some(position) => position.holding_register(),
            None => None,
        }
    }

    /// Whether the variable has its value nowhere yet: it has no location
    /// but requests for a register.
    pub open spec fn holds_no_value(self) -> bool {
        forall|i: int| 0 <= i < self.positions.len() ==> (#[trigger] self.positions[i]).is_general_purpose_register()
    }

    /// Whether one of the locations is the register called `name`.
    pub open spec fn is_in_register(self, name: Seq<char>) -> bool {
        self.positions.contains(PositionView::Register(name))
    }

    /// Whether one of the locations is a slot of the stack frame.
    pub open spec fn has_stack_position(self) -> bool {
        exists|i: int| 0 <= i < self.positions.len() && (#[trigger] self.positions[i]).is_stack()
    }

    /// The stack location that the variable falls back to.
    pub open spec fn best_stack_position(self) -> Option<PositionView> {
        best_stack_of(self.positions)
    }

    /// The variable with nothing left but the stack location it falls back to.
    pub open spec fn collapsed(self) -> VariableView {
        VariableView {
            full_name: self.full_name,
            positions: match self.best_stack_position() {
                Some(p) => seq![p],
                None => Seq::empty(),
            },
        }
    }

    /// The byte offset of the stack location that the variable falls back
    /// to, where that location is a direct slot.
    pub open spec fn stack_offset(self) -> Option<usize> {
        match self.best_stack_position() {
            Some(PositionView::StackOffset(offset)) => Some(offset),
            _ => None,
        }
    }

    /// Whether the cost of every location of the variable can be held in a `usize`.
    pub open spec fn costs_fit(self) -> bool {
        forall|i: int| 0 <= i < self.positions.len() ==> (#[trigger] self.positions[i]).cost() <= usize::MAX
    }

    /// The variable at the single location `position`.
    pub open spec fn moved_to(self, position: PositionView) -> VariableView {
        VariableView { full_name: self.full_name, positions: seq![position] }
    }
}

impl View for Variable {
    type V = VariableView;

    open spec fn view(&self) -> VariableView {
        VariableView { full_name: self.full_name@, positions: positions_view(self.positions@) }
    }
}

/// What `cheapest_of` returns is one of the locations, none is preferred
/// to it, and it is preferred to every location before it. So none costs
/// less, and it is no indirect stack slot where there is a direct one.
pub proof fn lemma_cheapest_of(positions: Seq<PositionView>)
    ensures
        positions.len() == 0 <==> cheapest_of(positions) is None,
        cheapest_of(positions) matches Some(best) ==> exists|i: int| #[trigger] is_cheapest_at(positions, best, i),
        cheapest_of(positions) matches Some(best) ==> forall|j: int|
            0 <= j < positions.len() ==> best.cost() <= (#[trigger] positions[j]).cost(),
    decreases positions.len(),
{
    if positions.len() > 0 {
        let init = positions.drop_last();
        lemma_cheapest_of(init);
        let last = positions.len() - 1;
        assert(positions[last] == positions.last());
        assert forall|j: int| 0 <= j < last implies #[trigger] positions[j] == init[j] by {}
        match cheapest_of(init) {
            Some(before) => {
                let i = choose|i: int| #[trigger] is_cheapest_at(init, before, i);
                if positions.last().is_preferred_to(before) {
                    let best = positions.last();
                    assert forall|j: int| 0 <= j < positions.len() implies !(#[trigger] positions[j]).is_preferred_to(
                        best,
                    ) by {
                        if j < last {
                            assert(!init[j].is_preferred_to(before));
                        }
                    }
                    assert forall|j: int| 0 <= j < last implies best.is_preferred_to(#[trigger] positions[j]) by {
                        assert(!init[j].is_preferred_to(before));
                        lemma_cost_of_kinds(init[j]);
                        lemma_cost_of_kinds(before);
                    }
                    assert(is_cheapest_at(positions, best, last));
                } else {
                    assert forall|j: int| 0 <= j < positions.len() implies !(#[trigger] positions[j]).is_preferred_to(
                        before,
                    ) by {
                        if j < last {
                            assert(!init[j].is_preferred_to(before));
                        }
                    }
                    assert forall|j: int| 0 <= j < i implies before.is_preferred_to(#[trigger] positions[j]) by {
                        assert(before.is_preferred_to(init[j]));
                    }
                    assert(is_cheapest_at(positions, before, i));
                }
            },
            None => {
                assert(is_cheapest_at(positions, positions.last(), last));
            },
        }
        let best = cheapest_of(positions).unwrap();
        let at = choose|i: int| #[trigger] is_cheapest_at(positions, best, i);
        assert forall|j: int| 0 <= j < positions.len() implies best.cost() <= (#[trigger] positions[j]).cost() by {
            assert(!positions[j].is_preferred_to(best));
        }
    }
}

/// A register costs nothing, a direct stack slot costs 1, and every
/// other location costs 1 or more.
pub proof fn lemma_cost_of_kinds(position: PositionView)
    ensures
        position is Register <==> position.cost() == 0,
        position is StackOffset ==> position.cost() == 1,
        position is StackOffsetAt ==> position.cost() >= 1,
        position is Heap ==> position.cost() >= 2,
{
}

/// What `best_stack_of` returns is a stack location among `positions`, no
/// stack location ranks before it, and every stack location after it ranks
/// behind it; it returns nothing only when there is no stack location.
pub proof fn lemma_best_stack_of(positions: Seq<PositionView>)
    ensures
        match best_stack_of(positions) {
            Some(best) => best.is_stack() && exists|i: int|
                0 <= i < positions.len() && #[trigger] positions[i] == best
                && (forall|j: int| 0 <= j < positions.len() && (#[trigger] positions[j]).is_stack()
                    ==> stack_rank(best) <= stack_rank(positions[j]))
                && (forall|j: int| i < j < positions.len() && (#[trigger] positions[j]).is_stack()
                    ==> stack_rank(best) < stack_rank(positions[j])),
            None => forall|i: int| 0 <= i < positions.len() ==> !(#[trigger] positions[i]).is_stack(),
        },
    decreases positions.len(),
{
    if positions.len() > 0 {
        let init = positions.drop_last();
        lemma_best_stack_of(init);
        let last = positions.len() - 1;
        assert(positions[last] == positions.last());
        assert(forall|j: int| 0 <= j < last ==> positions[j] == init[j]);
        match best_stack_of(init) {
            Some(best) => {
                let i = choose|i: int|
                    0 <= i < init.len() && #[trigger] init[i] == best
                    && (forall|j: int| 0 <= j < init.len() && (#[trigger] init[j]).is_stack()
                        ==> stack_rank(best) <= stack_rank(init[j]))
                    && (forall|j: int| i < j < init.len() && (#[trigger] init[j]).is_stack()
                        ==> stack_rank(best) < stack_rank(init[j]));
                assert(positions[i] == best);
                if positions.last().is_stack() && stack_rank(positions.last()) <= stack_rank(best) {
                    assert forall|j: int| 0 <= j < positions.len() && (#[trigger] positions[j]).is_stack()
                        implies stack_rank(positions.last()) <= stack_rank(positions[j]) by {
                        if j < last {
                            assert(init[j].is_stack());
                        }
                    }
                } else {
                    assert forall|j: int| 0 <= j < positions.len() && (#[trigger] positions[j]).is_stack()
                        implies stack_rank(best) <= stack_rank(positions[j]) by {
                        if j < last {
                            assert(init[j].is_stack());
                        }
                    }
                    assert forall|j: int| i < j < positions.len() && (#[trigger] positions[j]).is_stack()
                        implies stack_rank(best) < stack_rank(positions[j]) by {
                        if j < last {
                            assert(init[j].is_stack());
                        }
                    }
                }
            },
            None => {
                assert forall|i: int| 0 <= i < positions.len() && !positions.last().is_stack() implies !(#[trigger] positions[i]).is_stack() by {
                    if i < last {
                        assert(positions[i] == init[i]);
                    }
                }
            },
        }
    }
}

/// A variable that is held in a register has a register as its cheapest
/// location.
pub proof fn lemma_cheapest_prefers_register(variable: VariableView, i: int)
    requires
        0 <= i < variable.positions.len(),
        variable.positions[i] is Register,
    ensures
        variable.cheapest() matches Some(best) && best is Register,
{
    lemma_cheapest_of(variable.positions);
    let best = variable.cheapest().unwrap();
    assert(best.cost() <= variable.positions[i].cost());
    lemma_cost_of_kinds(variable.positions[i]);
    lemma_cost_of_kinds(best);
}

/// A variable that has a direct stack slot does not have an indirect one as
/// its cheapest location, wherever the two stand.
pub proof fn lemma_cheapest_prefers_direct_stack(variable: VariableView, i: int)
    requires
        0 <= i < variable.positions.len(),
        variable.positions[i] is StackOffset,
    ensures
        variable.cheapest() matches Some(best) && !(best is StackOffsetAt),
{
    lemma_cheapest_of(variable.positions);
    let best = variable.cheapest().unwrap();
    let k = choose|k: int| #[trigger] is_cheapest_at(variable.positions, best, k);
    assert(!variable.positions[i].is_preferred_to(best));
    lemma_cost_of_kinds(variable.positions[i]);
    lemma_cost_of_kinds(best);
}

impl Clone for Variable {
    fn clone(&self) -> (res: Self)
        ensures
            res@ == self@,
    {
        let res = Variable { full_name: self.full_name.clone(), positions: clone_positions(&self.positions) };
        res
    }
}

/// A copy of a list of locations.
pub fn clone_positions(positions: &Vec<DataPosition>) -> (res: Vec<DataPosition>)
    ensures
        positions_view(res@) == positions_view(positions@),
{
    let mut res: Vec<DataPosition> = Vec::new();
    let mut i: usize = 0;
    while i < positions.len()
        invariant
            i <= positions.len(),
            res.len() == i,
            forall|j: int| 0 <= j < i ==> res@[j]@ == positions@[j]@,
        decreases positions.len() - i,
    {
        res.push(positions[i].clone());
        i += 1;
    }
    assert(positions_view(res@) =~= positions_view(positions@));
    res
}

impl Variable {
    /// Whether the cost of every location of the variable can be held in a `usize`.
    pub open spec fn costs_fit(&self) -> bool {
        self@.costs_fit()
    }

    pub fn new(full_name: String, positions: Vec<DataPosition>) -> (res: Variable)
        ensures
            res.full_name == full_name,
            res.positions == positions,
    {
        Variable { full_name, positions }
    }

    /// The cheapest location of the variable, or nothing if it has no
    /// location: a location of least cost; of several that cost the same a
    /// direct stack slot before an indirect one, and otherwise the first.
    /// So a register is preferred to everything else, and a direct stack
    /// slot to an indirect one, in whatever order they stand.
    pub fn get_cheapest_position(&self) -> (res: Option<DataPosition>)
        requires
            self.costs_fit(),
        ensures
            optional_view(res) == self@.cheapest(),
            res is None <==> self.positions.len() == 0,
            res matches Some(best) ==> exists|i: int| #[trigger] is_cheapest_at(self@.positions, best@, i),
            res matches Some(best) ==> forall|j: int|
                0 <= j < self.positions.len() ==> best@.cost() <= (#[trigger] self.positions[j])@.cost(),
            (exists|i: int| 0 <= i < self.positions.len() && (#[trigger] self.positions[i])@ is Register) ==> (res matches Some(
                best,
            ) && best@ is Register),
            (exists|i: int| 0 <= i < self.positions.len() && (#[trigger] self.positions[i])@ is StackOffset) ==> (res matches Some(
                best,
            ) && !(best@ is StackOffsetAt)),
    {
        let ghost all = positions_view(self.positions@);
        let mut cheapest: Option<usize> = None;
        let mut i: usize = 0;
        while i < self.positions.len()
            invariant
                i <= self.positions.len(),
                self.costs_fit(),
                all == positions_view(self.positions@),
                match cheapest {
                    Some(c) => c < i && cheapest_of(all.subrange(0, i as int)) == Some(all[c as int]),
                    None => cheapest_of(all.subrange(0, i as int)) is None,
                },
            decreases self.positions.len() - i,
        {
            proof {
                assert(all.subrange(0, i + 1).drop_last() == all.subrange(0, i as int));
                assert(all.subrange(0, i + 1).last() == all[i as int]);
                assert(self@.positions[i as int] == self.positions[i as int]@);
                if let Some(c) = cheapest {
                    assert(self@.positions[c as int] == self.positions[c as int]@);
                }
            }
            let replace = match cheapest {
                Some(c) => self.positions[i].is_preferred_to(&self.positions[c]),
                None => true,
            };
            if replace {
                cheapest = Some(i);
            }
            i += 1;
        }
        proof {
            assert(all.subrange(0, i as int) == all);
            lemma_cheapest_of(all);
            assert forall|j: int| 0 <= j < self.positions.len() implies #[trigger] self.positions[j]@ == all[j] by {}
            if exists|i: int| 0 <= i < self.positions.len() && (#[trigger] self.positions[i])@ is Register {
                let r = choose|i: int| 0 <= i < self.positions.len() && (#[trigger] self.positions[i])@ is Register;
                lemma_cheapest_prefers_register(self@, r);
            }
            if exists|i: int| 0 <= i < self.positions.len() && (#[trigger] self.positions[i])@ is StackOffset {
                let d = choose|i: int| 0 <= i < self.positions.len() && (#[trigger] self.positions[i])@ is StackOffset;
                lemma_cheapest_prefers_direct_stack(self@, d);
            }
        }
        match cheapest {
            Some(c) => Some(self.positions[c].clone()),
            None => None,
        }
    }

    /// The name of the register in which the variable has its value.
    pub fn value_register(&self) -> (res: Option<String>)
        requires
            self.costs_fit(),
        ensures
            match res {
                Some(name) => self@.value_register() == Some(name@),
                None => self@.value_register() is None,
            },
    {
        match self.get_cheapest_position() {
            Some(position) => if position.is_general_purpose_register() {
                None
            } else {
                position.register_name()
            },
            None => None,
        }
    }

    /// Whether the cost of every location of the variable can be held in a `usize`.
    pub fn has_fitting_costs(&self) -> (res: bool)
        ensures
            res == self.costs_fit(),
    {
        let mut i: usize = 0;
        while i < self.positions.len()
            invariant
                i <= self.positions.len(),
                forall|j: int| 0 <= j < i ==> (#[trigger] self@.positions[j]).cost() <= usize::MAX,
            decreases self.positions.len() - i,
        {
            assert(self@.positions[i as int] == self.positions[i as int]@);
            if self.positions[i].checked_cost().is_none() {
                return false;
            }
            i += 1;
        }
        true
    }

    /// Whether the variable has its value nowhere yet.
    pub fn holds_no_value(&self) -> (res: bool)
        ensures
            res == self@.holds_no_value(),
    {
        let ghost all = positions_view(self.positions@);
        let mut i: usize = 0;
        while i < self.positions.len()
            invariant
                i <= self.positions.len(),
                all == positions_view(self.positions@),
                forall|j: int| 0 <= j < i ==> (#[trigger] all[j]).is_general_purpose_register(),
            decreases self.positions.len() - i,
        {
            if !self.positions[i].is_general_purpose_register() {
                assert(!self@.positions[i as int].is_general_purpose_register());
                return false;
            }
            i += 1;
        }
        true
    }

    /// Whether one of the locations of the variable is the register called `name`.
    pub fn is_in_register(&self, name: &String) -> (res: bool)
        ensures
            res == self@.is_in_register(name@),
    {
        let ghost all = positions_view(self.positions@);
        let mut i: usize = 0;
        while i < self.positions.len()
            invariant
                i <= self.positions.len(),
                all == positions_view(self.positions@),
                forall|j: int| 0 <= j < i ==> all[j] != PositionView::Register(name@),
            decreases self.positions.len() - i,
        {
            if self.positions[i].is_register(name.clone()) {
                assert(self@.positions[i as int] == PositionView::Register(name@));
                return true;
            }
            i += 1;
        }
        false
    }

    /// Whether the variable has a location on the stack, direct or indirect.
    pub fn has_stack_position(&self) -> (res: bool)
        ensures
            res == self@.has_stack_position(),
    {
        let ghost all = positions_view(self.positions@);
        let mut i: usize = 0;
        while i < self.positions.len()
            invariant
                i <= self.positions.len(),
                all == positions_view(self.positions@),
                forall|j: int| 0 <= j < i ==> !(#[trigger] all[j]).is_stack(),
            decreases self.positions.len() - i,
        {
            match &self.positions[i] {
                DataPosition::StackOffset(_) | DataPosition::StackOffsetAt(_) => {
                    assert(self@.positions[i as int].is_stack());
                    return true;
                },
                _ => {},
            }
            i += 1;
        }
        false
    }

    /// The index of the stack location that the variable falls back to.
    fn best_stack_index(&self) -> (res: Option<usize>)
        requires
            self.costs_fit(),
        ensures
            match res {
                Some(i) => i < self.positions.len() && self@.best_stack_position() == Some(self.positions[i as int]@),
                None => self@.best_stack_position() is None,
            },
    {
        let ghost all = positions_view(self.positions@);
        let mut best: Option<(usize, usize)> = None;
        let mut i: usize = 0;
        while i < self.positions.len()
            invariant
                i <= self.positions.len(),
                self.costs_fit(),
                all == positions_view(self.positions@),
                match best {
                    Some((b, rank)) => b < i && rank == stack_rank(all[b as int])
                        && best_stack_of(all.subrange(0, i as int)) == Some(all[b as int]),
                    None => best_stack_of(all.subrange(0, i as int)) is None,
                },
            decreases self.positions.len() - i,
        {
            proof {
                assert(all.subrange(0, i + 1).drop_last() == all.subrange(0, i as int));
                assert(all.subrange(0, i + 1).last() == all[i as int]);
                assert(self@.positions[i as int] == self.positions[i as int]@);
            }
            let candidate: Option<usize> = match &self.positions[i] {
                DataPosition::StackOffset(_) => Some(0),
                DataPosition::StackOffsetAt(inner) => Some(1 + inner.cost()),
                _ => None,
            };
            if let Some(rank) = candidate {
                let replace = match best {
                    Some((_, best_rank)) => rank <= best_rank,
                    None => true,
                };
                if replace {
                    best = Some((i, rank));
                }
            }
            i += 1;
        }
        assert(all.subrange(0, i as int) == all);
        match best {
            Some((b, _)) => Some(b),
            None => None,
        }
    }

    /// Remove every location but one location on the stack.
    /// If there are multiple locations on the stack, a direct slot is chosen
    /// before an indirect one, and among indirect ones the one whose offset
    /// is cheapest to get at; of several equally good ones, the last.
    /// A variable without a stack location is left with no location at all.
    pub fn remove_everything_except_stack_position(&mut self)
        requires
            old(self).costs_fit(),
        ensures
            final(self)@ == old(self)@.collapsed(),
            final(self).costs_fit(),
    {
        let mut kept: Vec<DataPosition> = Vec::new();
        if let Some(b) = self.best_stack_index() {
            let position = self.positions[b].clone();
            assert(old(self)@.positions[b as int] == position@);
            kept.push(position);
        }
        self.positions = kept;
        assert(self@.positions =~= old(self)@.collapsed().positions);
    }

    /// The byte offset of the stack location that the variable falls back
    /// to. `None` if it has no stack location, or only indirect ones.
    pub fn get_stack_offset(&self) -> (res: Option<usize>)
        requires
            self.costs_fit(),
        ensures
            res == self@.stack_offset(),
    {
        match self.best_stack_index() {
            Some(b) => self.positions[b].immediate_stack_offset(),
            None => None,
        }
    }
}

/// The size of a value.
#[derive(Clone, Copy, Debug, PartialEq, Eq, Structural)]
pub enum BitUnit {
    Byte,
    Word,
    DoubleWord,
    QuadWord,
    /// The maximum the architecture allows (usually 32/64 b).
    ArchitectureMax,
}

/// The unit that is `bits` bits wide, for the widths that have a unit.
pub open spec fn unit_of_width(bits: u8) -> Option<BitUnit> {
    if bits == 8 {
        Some(BitUnit::Byte)
    } else if bits == 16 {
        Some(BitUnit::Word)
    } else if bits == 32 {
        Some(BitUnit::DoubleWord)
    } else if bits == 64 {
        Some(BitUnit::QuadWord)
    } else {
        None
    }
}

impl BitUnit {
    /// The unit that is `bits` bits wide: 8, 16, 32 and 64 bits have one.
    pub fn of_width(bits: u8) -> (res: Option<BitUnit>)
        ensures
            res == unit_of_width(bits),
    {
        if bits == 8 {
            Some(BitUnit::Byte)
        } else if bits == 16 {
            Some(BitUnit::Word)
        } else if bits == 32 {
            Some(BitUnit::DoubleWord)
        } else if bits == 64 {
            Some(BitUnit::QuadWord)
        } else {
            None
        }
    }

    /// The unit itself, or for `ArchitectureMax` the unit that is `bits` bits wide.
    pub open spec fn resolved(self, bits: u8) -> BitUnit {
        if self == BitUnit::ArchitectureMax {
            unit_of_width(bits).unwrap()
        } else {
            self
        }
    }

    /// The unit itself, or for `ArchitectureMax` the unit that is `bits`
    /// bits wide, `bits` being the width of the widest register of the
    /// architecture. The width must then be 8, 16, 32 or 64 bits.
    pub fn resolve_for_width(&self, bits: u8) -> (res: BitUnit)
        requires
            *self == BitUnit::ArchitectureMax ==> unit_of_width(bits) is Some,
        ensures
            res == self.resolved(bits),
            res == if *self == BitUnit::ArchitectureMax {
                unit_of_width(bits).unwrap()
            } else {
                *self
            },
            res != BitUnit::ArchitectureMax,
    {
        match self {
            BitUnit::ArchitectureMax => BitUnit::of_width(bits).unwrap(),
            _ => *self,
        }
    }

    /// The unit itself, or for `ArchitectureMax` the unit of the widest
    /// register of `arch`. The architecture must then report a width of 8,
    /// 16, 32 or 64 bits. The result is never `ArchitectureMax`.
    pub fn resolve<A: Arch + ?Sized>(&self, arch: Box<A>) -> (res: BitUnit)
        requires
            *self == BitUnit::ArchitectureMax ==> unit_of_width(arch.register_width()) is Some,
        ensures
            res == self.resolved(arch.register_width()),
            res == if *self == BitUnit::ArchitectureMax {
                unit_of_width(arch.register_width()).unwrap()
            } else {
                *self
            },
            res != BitUnit::ArchitectureMax,
    {
        self.resolve_for_width(arch.architecture_bits())
    }
}

/// A resolved unit is resolved for good: it is never the architecture
/// maximum, and resolving it again, for whatever width, changes nothing.
pub proof fn lemma_resolved_is_fixed(unit: BitUnit, bits: u8, other_bits: u8)
    requires
        unit == BitUnit::ArchitectureMax ==> unit_of_width(bits) is Some,
    ensures
        unit.resolved(bits) != BitUnit::ArchitectureMax,
        unit.resolved(bits).resolved(other_bits) == unit.resolved(bits),
{
}

} // verus!
