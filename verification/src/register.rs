//! The registers of a target architecture: pure data and queries on it.
use vstd::prelude::*;
use crate::search::{first_index, lemma_first_index, lemma_first_index_is, lemma_first_index_none};

verus! {

/// Who has to preserve the value of a register across a call.
#[derive(Clone, Copy, Debug, PartialEq, Eq, Structural)]
pub enum RegisterSaver {
    /// Caller-saved register.
    Caller,
    /// Callee-saved register.
    Callee,
    /// Reserved by the operating system.
    OS,
    /// Scratch register: nobody preserves it.
    Scratch,
}

/// A role that a register plays.
#[derive(Clone, Copy, Debug, PartialEq, Eq, Structural)]
pub enum RegisterTag {
    /// Carries the n-th argument of a call.
    Argument(u8),
    GeneralPurpose,
    Scratch,
    StackPointer,
    FramePointer,
    NoModify,
}

/// One register of the target.
#[derive(Debug)]
pub struct Register {
    pub name: String,
    pub size_bits: u8,
    pub saver: RegisterSaver,
    pub tags: Vec<RegisterTag>,
}

/// The mathematical value of a [`Register`].
pub struct RegisterView {
    pub name: Seq<char>,
    pub size_bits: u8,
    pub saver: RegisterSaver,
    pub tags: Seq<RegisterTag>,
}

impl RegisterView {
    /// Whether the register plays the role `tag`.
    pub open spec fn has_tag(self, tag: RegisterTag) -> bool {
        self.tags.contains(tag)
    }

    /// Whether the register carries the argument of slot `number`.
    pub open spec fn is_argument(self, number: u8) -> bool {
        self.has_tag(RegisterTag::Argument(number))
    }
}

impl View for Register {
    type V = RegisterView;

    open spec fn view(&self) -> RegisterView {
        RegisterView {
            name: self.name@,
            size_bits: self.size_bits,
            saver: self.saver,
            tags: self.tags@,
        }
    }
}

impl Clone for Register {
    fn clone(&self) -> (res: Self)
        ensures
            res@ == self@,
    {
        let mut tags: Vec<RegisterTag> = Vec::new();
        let mut i: usize = 0;
        while i < self.tags.len()
            invariant
                i <= self.tags.len(),
                tags@ == self.tags@.subrange(0, i as int),
            decreases self.tags.len() - i,
        {
            tags.push(self.tags[i]);
            i += 1;
        }
        assert(tags@ == self.tags@);
        Register { name: self.name.clone(), size_bits: self.size_bits, saver: self.saver, tags }
    }
}

impl Register {
    pub fn new(name: String, size_bits: u8, saver: RegisterSaver, tags: Vec<RegisterTag>) -> (res: Register)
        ensures
            res.name == name,
            res.size_bits == size_bits,
            res.saver == saver,
            res.tags == tags,
    {
        Register { name, size_bits, saver, tags }
    }

    /// Whether the register plays the role `tag`.
    pub fn has_tag(&self, tag: RegisterTag) -> (res: bool)
        ensures
            res == self@.has_tag(tag),
    {
        let mut i: usize = 0;
        while i < self.tags.len()
            invariant
                i <= self.tags.len(),
                forall|j: int| 0 <= j < i ==> self.tags@[j] != tag,
            decreases self.tags.len() - i,
        {
            if self.tags[i] == tag {
                return true;
            }
            i += 1;
        }
        false
    }

    /// Whether the register is tagged as the carrier of argument `number`.
    pub fn is_argument(&self, number: u8) -> (res: bool)
        ensures
            res == self@.is_argument(number),
    {
        self.has_tag(RegisterTag::Argument(number))
    }
}

/// The mathematical value of a register table.
pub open spec fn table_view(registers: Seq<Register>) -> Seq<RegisterView> {
    registers.map_values(|r: Register| r@)
}

/// Whether at most one register of `table` plays the role `tag`.
pub open spec fn at_most_one(table: Seq<RegisterView>, tag: RegisterTag) -> bool {
    forall|i: int, j: int|
        0 <= i < table.len() && 0 <= j < table.len() && (#[trigger] table[i]).has_tag(tag) && (#[trigger] table[j]).has_tag(
            tag,
        ) ==> i == j
}

/// The invariant of a register table: exactly one scratch register, at most
/// one stack pointer and one frame pointer, and no argument slot claimed by
/// two registers.
pub open spec fn table_wf(table: Seq<RegisterView>) -> bool {
    &&& exists|i: int| 0 <= i < table.len() && (#[trigger] table[i]).has_tag(RegisterTag::Scratch)
    &&& at_most_one(table, RegisterTag::Scratch)
    &&& at_most_one(table, RegisterTag::StackPointer)
    &&& at_most_one(table, RegisterTag::FramePointer)
    &&& forall|n: u8| at_most_one(table, RegisterTag::Argument(n))
}

/// The first register of `table` that plays the role `tag`, by index.
pub open spec fn first_tagged(table: Seq<RegisterView>, tag: RegisterTag) -> Option<int> {
    first_index(table.len() as int, |i: int| table[i].has_tag(tag))
}

/// The register that carries the argument of slot `slot`, by index. Slots
/// past the range of a register tag have none.
pub open spec fn argument_register(table: Seq<RegisterView>, slot: usize) -> Option<int> {
    if slot > u8::MAX {
        None
    } else {
        first_tagged(table, RegisterTag::Argument(slot as u8))
    }
}

/// A table that holds a register with the role `tag` has a first such register.
pub proof fn lemma_tagged_exists(table: Seq<RegisterView>, tag: RegisterTag)
    requires
        exists|i: int| 0 <= i < table.len() && (#[trigger] table[i]).has_tag(tag),
    ensures
        first_tagged(table, tag) matches Some(i) && 0 <= i < table.len() && table[i].has_tag(tag),
{
    let p = |i: int| table[i].has_tag(tag);
    lemma_first_index(table.len() as int, p);
    if first_tagged(table, tag) is None {
        let i = choose|i: int| 0 <= i < table.len() && (#[trigger] table[i]).has_tag(tag);
        assert(!p(i));
    }
}

/// Finds the first register that plays the role `tag`.
pub fn find_tagged(registers: &Vec<Register>, tag: RegisterTag) -> (res: Option<usize>)
    ensures
        match res {
            Some(i) => i < registers.len() && first_tagged(table_view(registers@), tag) == Some(i as int),
            None => first_tagged(table_view(registers@), tag) is None,
        },
{
    let ghost table = table_view(registers@);
    let ghost p = |i: int| table[i].has_tag(tag);
    let mut i: usize = 0;
    while i < registers.len()
        invariant
            i <= registers.len(),
            table == table_view(registers@),
            p == |i: int| table[i].has_tag(tag),
            forall|j: int| 0 <= j < i ==> !#[trigger] p(j),
        decreases registers.len() - i,
    {
        if registers[i].has_tag(tag) {
            proof {
                lemma_first_index_is(table.len() as int, p, i as int);
            }
            return Some(i);
        }
        i += 1;
    }
    proof {
        lemma_first_index_none(table.len() as int, p);
    }
    None
}

/// Finds the register that carries the argument of slot `slot`.
pub fn find_argument_register(registers: &Vec<Register>, slot: usize) -> (res: Option<usize>)
    ensures
        match res {
            Some(i) => i < registers.len() && argument_register(table_view(registers@), slot) == Some(i as int),
            None => argument_register(table_view(registers@), slot) is None,
        },
{
    if slot > 255 {
        None
    } else {
        find_tagged(registers, RegisterTag::Argument(slot as u8))
    }
}

/// The indices of the registers among the first `n` of `table` that play
/// the role `tag`, in ascending order.
pub open spec fn all_tagged(table: Seq<RegisterView>, tag: RegisterTag, n: int) -> Seq<usize>
    decreases n,
{
    if n <= 0 {
        Seq::empty()
    } else if table[n - 1].has_tag(tag) {
        all_tagged(table, tag, n - 1).push((n - 1) as usize)
    } else {
        all_tagged(table, tag, n - 1)
    }
}

/// Finds all registers that play the role `tag`: their indices in
/// ascending order.
pub fn find_all_tagged(registers: &Vec<Register>, tag: RegisterTag) -> (res: Vec<usize>)
    ensures
        res@ == all_tagged(table_view(registers@), tag, registers.len() as int),
        forall|k: int| 0 <= k < res.len() ==> (#[trigger] res[k]) < registers.len() && registers[res[k] as int]@.has_tag(tag),
        forall|i: int|
            0 <= i < registers.len() && (#[trigger] registers[i])@.has_tag(tag) ==> res@.contains(i as usize),
        forall|j: int, k: int| 0 <= j < k < res.len() ==> (#[trigger] res[j]) < (#[trigger] res[k]),
{
    let ghost table = table_view(registers@);
    let mut res: Vec<usize> = Vec::new();
    let mut i: usize = 0;
    while i < registers.len()
        invariant
            i <= registers.len(),
            table == table_view(registers@),
            res@ == all_tagged(table, tag, i as int),
            forall|k: int| 0 <= k < res.len() ==> (#[trigger] res[k]) < i && registers[res[k] as int]@.has_tag(tag),
            forall|j: int| 0 <= j < i && (#[trigger] registers[j])@.has_tag(tag) ==> res@.contains(j as usize),
            forall|j: int, k: int| 0 <= j < k < res.len() ==> (#[trigger] res[j]) < (#[trigger] res[k]),
        decreases registers.len() - i,
    {
        assert(table[i as int] == registers[i as int]@);
        if registers[i].has_tag(tag) {
            let ghost before = res@;
            res.push(i);
            assert forall|j: int| 0 <= j < i + 1 && (#[trigger] registers[j])@.has_tag(tag) implies res@.contains(
                j as usize,
            ) by {
                if j < i {
                    let k = choose|k: int| 0 <= k < before.len() && before[k] == j as usize;
                    assert(res@[k] == j as usize);
                } else {
                    assert(res@[res.len() - 1] == i);
                }
            }
        }
        i += 1;
    }
    res
}

/// Whether at most one register plays the role `tag`.
pub fn has_at_most_one(registers: &Vec<Register>, tag: RegisterTag) -> (res: bool)
    ensures
        res == at_most_one(table_view(registers@), tag),
{
    let ghost table = table_view(registers@);
    let mut seen: Option<usize> = None;
    let mut j: usize = 0;
    while j < registers.len()
        invariant
            j <= registers.len(),
            table == table_view(registers@),
            match seen {
                Some(i) => i < j && table[i as int].has_tag(tag) && forall|k: int|
                    0 <= k < j && k != i ==> !(#[trigger] table[k]).has_tag(tag),
                None => forall|k: int| 0 <= k < j ==> !(#[trigger] table[k]).has_tag(tag),
            },
        decreases registers.len() - j,
    {
        assert(table[j as int] == registers[j as int]@);
        if registers[j].has_tag(tag) {
            match seen {
                Some(i) => {
                    assert(table[i as int].has_tag(tag) && table[j as int].has_tag(tag));
                    return false;
                },
                None => {
                    seen = Some(j);
                },
            }
        }
        j += 1;
    }
    true
}

/// Whether the table keeps the invariant of a register table.
pub fn is_well_formed(registers: &Vec<Register>) -> (res: bool)
    ensures
        res == table_wf(table_view(registers@)),
{
    let ghost table = table_view(registers@);
    match find_tagged(registers, RegisterTag::Scratch) {
        Some(s) => {
            proof {
                lemma_first_index(table.len() as int, |i: int| table[i].has_tag(RegisterTag::Scratch));
                assert(table[s as int].has_tag(RegisterTag::Scratch));
            }
        },
        None => {
            proof {
                lemma_first_index(table.len() as int, |i: int| table[i].has_tag(RegisterTag::Scratch));
                assert forall|i: int| 0 <= i < table.len() implies !(#[trigger] table[i]).has_tag(RegisterTag::Scratch) by {
                    let p = |i: int| table[i].has_tag(RegisterTag::Scratch);
                    assert(!p(i));
                }
            }
            return false;
        },
    }
    if !has_at_most_one(registers, RegisterTag::Scratch) || !has_at_most_one(registers, RegisterTag::StackPointer)
        || !has_at_most_one(registers, RegisterTag::FramePointer) {
        return false;
    }
    let mut n: u8 = 0;
    loop
        invariant
            table == table_view(registers@),
            exists|i: int| 0 <= i < table.len() && (#[trigger] table[i]).has_tag(RegisterTag::Scratch),
            at_most_one(table, RegisterTag::Scratch),
            at_most_one(table, RegisterTag::StackPointer),
            at_most_one(table, RegisterTag::FramePointer),
            forall|m: u8| m < n ==> at_most_one(table, RegisterTag::Argument(m)),
        decreases 255 - n,
    {
        if !has_at_most_one(registers, RegisterTag::Argument(n)) {
            return false;
        }
        if n == 255 {
            return true;
        }
        n += 1;
    }
}

} // verus!
