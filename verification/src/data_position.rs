//! The places a value can live at while the compiled program runs.
use vstd::prelude::*;
use vstd::string::StringExecFns;

verus! {

/// The reserved register name that stands for "any general-purpose register".
pub const GENERAL_PURPOSE_REGISTER_NAME: &'static str = "generalPurposeRegister";

/// Holds all the possible locations data could be at during the runtime of the compiled program.
#[derive(Debug)]
pub enum DataPosition {
    /// A register, by name.
    Register(String),
    /// A slot of the stack frame, by byte offset.
    StackOffset(usize),
    /// A slot of the stack frame whose offset is stored at another location.
    StackOffsetAt(Box<DataPosition>),
    /// Heap memory: the location that holds the address, and the allocation size.
    Heap(Box<DataPosition>, usize),
}

/// The mathematical value of a [`DataPosition`].
pub enum PositionView {
    Register(Seq<char>),
    StackOffset(usize),
    StackOffsetAt(Box<PositionView>),
    Heap(Box<PositionView>, usize),
}

impl PositionView {
    /// Whether this is the register called `name`.
    pub open spec fn is_register_named(self, name: Seq<char>) -> bool {
        self == PositionView::Register(name)
    }

    /// Whether this is the request for any general-purpose register.
    pub open spec fn is_general_purpose_register(self) -> bool {
        self == PositionView::Register(GENERAL_PURPOSE_REGISTER_NAME@)
    }

    /// The name of the register that holds a value stored here: that of a
    /// register other than the request for any.
    pub open spec fn holding_register(self) -> Option<Seq<char>> {
        match self {
            PositionView::Register(name) => if self.is_general_purpose_register() {
                None
            } else {
                Some(name)
            },
            _ => None,
        }
    }

    /// Whether this location is taken before `other` where the cheapest
    /// location is looked for: it costs less, or it costs the same and is a
    /// direct stack slot where `other` is an indirect one.
    pub open spec fn is_preferred_to(self, other: PositionView) -> bool {
        self.cost() < other.cost() || (self.cost() == other.cost() && self is StackOffset && other is StackOffsetAt)
    }

    /// Whether this is a slot of the stack frame, direct or indirect.
    pub open spec fn is_stack(self) -> bool {
        self is StackOffset || self is StackOffsetAt
    }
    /// The time cost of getting at a value stored at this location.
    pub open spec fn cost(self) -> nat
        decreases self,
    {
        match self {
            PositionView::Register(_) => 0,
            PositionView::StackOffset(_) => 1,
            PositionView::StackOffsetAt(inner) => 1 + inner.cost(),
            PositionView::Heap(inner, _) => 2 + inner.cost(),
        }
    }
}

impl View for DataPosition {
    type V = PositionView;

    open spec fn view(&self) -> PositionView {
        self.model()
    }
}

impl Clone for DataPosition {
    fn clone(&self) -> (res: Self)
        ensures
            res@ == self@,
        decreases self,
    {
        match self {
            DataPosition::Register(name) => DataPosition::Register(name.clone()),
            DataPosition::StackOffset(offset) => DataPosition::StackOffset(*offset),
            DataPosition::StackOffsetAt(inner) => DataPosition::StackOffsetAt(Box::new((&**inner).clone())),
            DataPosition::Heap(inner, size) => DataPosition::Heap(Box::new((&**inner).clone()), *size),
        }
    }
}

impl DataPosition {
    /// The mathematical value of this location: what `@` gives.
    pub open spec fn model(&self) -> PositionView
        decreases self,
    {
        match self {
            DataPosition::Register(name) => PositionView::Register(name@),
            DataPosition::StackOffset(offset) => PositionView::StackOffset(*offset),
            DataPosition::StackOffsetAt(inner) => PositionView::StackOffsetAt(Box::new(inner.model())),
            DataPosition::Heap(inner, size) => PositionView::Heap(Box::new(inner.model()), *size),
        }
    }

    /// The location that requests any general-purpose register. It is a
    /// request only: no value ever lives there.
    pub fn general_purpose_register() -> (res: Self)
        ensures
            res@.is_general_purpose_register(),
    {
        DataPosition::Register(String::from_str(GENERAL_PURPOSE_REGISTER_NAME))
    }

    pub fn is_general_purpose_register(&self) -> (res: bool)
        ensures
            res == self@.is_general_purpose_register(),
    {
        match self {
            DataPosition::Register(name) => {
                let reserved = String::from_str(GENERAL_PURPOSE_REGISTER_NAME);
                *name == reserved
            },
            _ => false,
        }
    }

    pub fn is_register(&self, register_name: String) -> (res: bool)
        ensures
            res == self@.is_register_named(register_name@),
    {
        match self {
            DataPosition::Register(own_name) => *own_name == register_name,
            _ => false,
        }
    }

    /// Gets the name of the register if it refers to one,
    /// returns None otherwise.
    pub fn register_name(&self) -> (res: Option<String>)
        ensures
            match res {
                Some(name) => self@ == PositionView::Register(name@),
                None => !(self@ is Register),
            },
    {
        match self {
            DataPosition::Register(name) => Some(name.clone()),
            _ => None,
        }
    }

    /// The byte offset of a direct stack slot. Indirect and heap locations
    /// give `None`: only a direct offset can be addressed without another
    /// memory access.
    pub fn immediate_stack_offset(&self) -> (res: Option<usize>)
        ensures
            match res {
                Some(offset) => self@ == PositionView::StackOffset(offset),
                None => !(self@ is StackOffset),
            },
    {
        match self {
            DataPosition::StackOffset(offset) => Some(*offset),
            _ => None,
        }
    }

    /// Whether the cost of this location can be held in a `usize`.
    pub open spec fn cost_fits(&self) -> bool {
        self@.cost() <= usize::MAX
    }

    /// The cost of this location, or nothing where it cannot be held in a `usize`.
    pub fn checked_cost(&self) -> (res: Option<usize>)
        ensures
            match res {
                Some(cost) => cost == self@.cost(),
                None => !self.cost_fits(),
            },
        decreases self,
    {
        match self {
            DataPosition::Register(_) => Some(0),
            DataPosition::StackOffset(_) => Some(1),
            DataPosition::StackOffsetAt(pos) => match pos.checked_cost() {
                Some(inner) => if inner < usize::MAX {
                    Some(1 + inner)
                } else {
                    None
                },
                None => None,
            },
            DataPosition::Heap(pos, _) => match pos.checked_cost() {
                Some(inner) => if inner < usize::MAX - 1 {
                    Some(2 + inner)
                } else {
                    None
                },
                None => None,
            },
        }
    }

    /// Whether this location is taken before `other` where the cheapest
    /// location is looked for.
    pub fn is_preferred_to(&self, other: &DataPosition) -> (res: bool)
        requires
            self.cost_fits(),
            other.cost_fits(),
        ensures
            res == self@.is_preferred_to(other@),
    {
        let own = self.cost();
        let others = other.cost();
        if own < others {
            true
        } else if own == others {
            match (self, other) {
                (DataPosition::StackOffset(_), DataPosition::StackOffsetAt(_)) => true,
                _ => false,
            }
        } else {
            false
        }
    }

    /// The time costs of getting the value.
    pub fn cost(&self) -> (res: usize)
        requires
            self.cost_fits(),
        ensures
            res == self@.cost(),
        decreases self,
    {
        match self {
            DataPosition::Register(_) => 0,
            DataPosition::StackOffset(_) => 1,
            DataPosition::StackOffsetAt(pos) => 1 + pos.cost(),
            DataPosition::Heap(pos, _) => 2 + pos.cost(),
        }
    }
}

} // verus!
