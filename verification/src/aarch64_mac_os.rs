//! The 64-bit ARM architecture under macOS.
use vstd::prelude::*;
use vstd::string::StringExecFns;
use crate::arch::Arch;
use crate::data_position::{DataPosition, PositionView};
use crate::macro_instruction::MacroInstruction;
use crate::register::{at_most_one, table_view, table_wf, Register, RegisterSaver, RegisterTag, RegisterView};
use crate::text::{decimal, digit, push_decimal};
use crate::variable::{Variable, VariableView};
use crate::variable_manager::demand::variables_view;
use crate::variable_manager::machine::{has_distinct_names, has_free_relay};

verus! {

/// The 64-bit ARM architecture under macOS, with its table of registers.
pub struct AArch64MacOs {
    pub registers: Vec<Register>,
}

impl AArch64MacOs {
    /// The name of the architecture.
    pub const NAME: &'static str = "aarch64-mac-os";

    /// The width of its registers in bits.
    pub const BITS_COUNT: u8 = 64;
}

/// Who saves register number `i`: `x8` is the scratch register and `x18`
/// belongs to the operating system; below them the caller saves, above
/// them the callee.
pub open spec fn saver_of(i: int) -> RegisterSaver {
    if i == 8 {
        RegisterSaver::Scratch
    } else if i == 18 {
        RegisterSaver::OS
    } else if i < 18 {
        RegisterSaver::Caller
    } else {
        RegisterSaver::Callee
    }
}

/// The roles of register number `i`: `x0` to `x7` carry the arguments,
/// `x29` is the frame pointer, and number 31 is the stack pointer.
pub open spec fn tags_of(i: int) -> Seq<RegisterTag> {
    if 0 <= i < 8 {
        seq![RegisterTag::Argument(i as u8), RegisterTag::GeneralPurpose]
    } else if i == 8 {
        seq![RegisterTag::Scratch]
    } else if i == 18 {
        seq![RegisterTag::NoModify]
    } else if i == 29 {
        seq![RegisterTag::GeneralPurpose, RegisterTag::FramePointer]
    } else if i == 31 {
        seq![RegisterTag::StackPointer]
    } else {
        seq![RegisterTag::GeneralPurpose]
    }
}

/// Register number `i` of the table: `x0` to `x30`, then `sp`.
pub open spec fn register_of(i: int) -> RegisterView {
    RegisterView {
        name: if i == 31 {
            "sp"@
        } else {
            "x"@ + decimal(i as nat)
        },
        size_bits: AArch64MacOs::BITS_COUNT,
        saver: saver_of(i),
        tags: tags_of(i),
    }
}

/// The register table of the architecture.
pub open spec fn register_table() -> Seq<RegisterView> {
    Seq::new(32, |i: int| register_of(i))
}

/// The table of the architecture keeps the invariant of a register table.
pub proof fn lemma_register_table_wf()
    ensures
        table_wf(register_table()),
{
    let table = register_table();
    assert forall|i: int| 0 <= i < 32 implies (#[trigger] table[i]).tags == tags_of(i) by {}
    assert forall|i: int| 0 <= i < 32 implies ((#[trigger] table[i]).has_tag(RegisterTag::Scratch) <==> i == 8) by {
        lemma_tags(i);
    }
    assert(table[8].has_tag(RegisterTag::Scratch));
    assert forall|i: int| 0 <= i < 32 implies ((#[trigger] table[i]).has_tag(RegisterTag::StackPointer) <==> i == 31) by {
        lemma_tags(i);
    }
    assert forall|i: int| 0 <= i < 32 implies ((#[trigger] table[i]).has_tag(RegisterTag::FramePointer) <==> i == 29) by {
        lemma_tags(i);
    }
    assert forall|n: u8| at_most_one(table, RegisterTag::Argument(n)) by {
        assert forall|i: int| 0 <= i < 32 implies ((#[trigger] table[i]).has_tag(RegisterTag::Argument(n)) <==> i == n && n < 8) by {
            lemma_tags(i);
        }
    }
}

/// The numeral of a number below 100: one digit, or the tens and the ones.
proof fn lemma_small_numeral(n: nat)
    requires
        n < 100,
    ensures
        n < 10 ==> decimal(n) == seq![digit(n)],
        n >= 10 ==> decimal(n) == seq![digit(n / 10), digit(n % 10)],
{
    if n >= 10 {
        assert(decimal(n / 10) == seq![digit(n / 10)]);
        assert(decimal(n) =~= seq![digit(n / 10), digit(n % 10)]);
    }
}

/// Two registers of the table that bear the same name are one.
proof fn lemma_names_differ(i: int, j: int)
    requires
        0 <= i < j < 32,
    ensures
        register_of(i).name != register_of(j).name,
{
    reveal_strlit("x");
    reveal_strlit("sp");
    lemma_small_numeral(i as nat);
    let first = register_of(i).name;
    let second = register_of(j).name;
    assert(first.len() == if i < 10 { 2nat } else { 3nat });
    if j == 31 {
        assert(first[0] == 'x');
        assert(second[0] == 's');
    } else {
        lemma_small_numeral(j as nat);
        assert(second.len() == if j < 10 { 2nat } else { 3nat });
        if first.len() == second.len() {
            if i < 10 {
                assert(first[1] == digit(i as nat));
                assert(second[1] == digit(j as nat));
            } else {
                assert(first[1] == digit((i / 10) as nat));
                assert(second[1] == digit((j / 10) as nat));
                assert(first[2] == digit((i % 10) as nat));
                assert(second[2] == digit((j % 10) as nat));
            }
        }
    }
}

/// In the table of the architecture the scratch register is free to be
/// the relay of the reconciliation.
pub proof fn lemma_register_table_has_free_relay()
    ensures
        has_free_relay(register_table()),
{
    let table = register_table();
    assert(has_distinct_names(table)) by {
        assert forall|i: int, j: int| 0 <= i < j < table.len() implies (#[trigger] table[i]).name != (#[trigger] table[j]).name by {
            lemma_names_differ(i, j);
        }
    }
    assert forall|r: int| 0 <= r < table.len() && (#[trigger] table[r]).has_tag(RegisterTag::Scratch) implies !table[r].has_tag(
        RegisterTag::GeneralPurpose,
    ) by {
        lemma_tags(r);
    }
    assert forall|r: int, n: u8|
        0 <= r < table.len() && (#[trigger] table[r]).has_tag(RegisterTag::Scratch) implies !#[trigger] table[r].is_argument(
        n,
    ) by {
        lemma_tags(r);
    }
}

/// Which roles register number `i` plays.
proof fn lemma_tags(i: int)
    requires
        0 <= i < 32,
    ensures
        forall|tag: RegisterTag| #[trigger]
            tags_of(i).contains(tag) <==> match tag {
                RegisterTag::Argument(n) => i == n && n < 8,
                RegisterTag::GeneralPurpose => i != 8 && i != 18 && i != 31,
                RegisterTag::Scratch => i == 8,
                RegisterTag::StackPointer => i == 31,
                RegisterTag::FramePointer => i == 29,
                RegisterTag::NoModify => i == 18,
            },
{
    let tags = tags_of(i);
    assert forall|tag: RegisterTag| #[trigger]
        tags.contains(tag) <==> match tag {
            RegisterTag::Argument(n) => i == n && n < 8,
            RegisterTag::GeneralPurpose => i != 8 && i != 18 && i != 31,
            RegisterTag::Scratch => i == 8,
            RegisterTag::StackPointer => i == 31,
            RegisterTag::FramePointer => i == 29,
            RegisterTag::NoModify => i == 18,
        } by {
        if tags.contains(tag) {
            let k = choose|k: int| 0 <= k < tags.len() && tags[k] == tag;
            assert(tags[k] == tag);
        }
        if tags.len() >= 1 {
            assert(tags.contains(tags[0]));
        }
        if tags.len() >= 2 {
            assert(tags.contains(tags[1]));
        }
    }
}

impl AArch64MacOs {
    /// The architecture with its table of registers.
    pub fn new() -> (res: Self)
        ensures
            table_view(res.registers@) == register_table(),
            table_wf(table_view(res.registers@)),
            has_free_relay(table_view(res.registers@)),
    {
        let mut registers: Vec<Register> = Vec::new();
        let mut i: usize = 0;
        while i < 32
            invariant
                i <= 32,
                registers.len() == i,
                forall|j: int| 0 <= j < i ==> (#[trigger] registers[j])@ == register_of(j),
            decreases 32 - i,
        {
            let mut name = if i == 31 {
                String::from_str("sp")
            } else {
                String::from_str("x")
            };
            if i != 31 {
                push_decimal(&mut name, i);
            }
            let saver = if i == 8 {
                RegisterSaver::Scratch
            } else if i == 18 {
                RegisterSaver::OS
            } else if i < 18 {
                RegisterSaver::Caller
            } else {
                RegisterSaver::Callee
            };
            let mut tags: Vec<RegisterTag> = Vec::new();
            if i < 8 {
                tags.push(RegisterTag::Argument(i as u8));
                tags.push(RegisterTag::GeneralPurpose);
            } else if i == 8 {
                tags.push(RegisterTag::Scratch);
            } else if i == 18 {
                tags.push(RegisterTag::NoModify);
            } else if i == 29 {
                tags.push(RegisterTag::GeneralPurpose);
                tags.push(RegisterTag::FramePointer);
            } else if i == 31 {
                tags.push(RegisterTag::StackPointer);
            } else {
                tags.push(RegisterTag::GeneralPurpose);
            }
            assert(tags@ =~= tags_of(i as int));
            registers.push(Register::new(name, AArch64MacOs::BITS_COUNT, saver, tags));
            i += 1;
        }
        proof {
            assert(table_view(registers@) =~= register_table());
            lemma_register_table_wf();
            lemma_register_table_has_free_relay();
        }
        AArch64MacOs { registers }
    }
}

/// The variable that stands for the saved value of the register called `register`.
pub open spec fn saved_register(register: Seq<char>) -> VariableView {
    VariableView { full_name: "saved-register-"@ + register, positions: seq![PositionView::Register(register)] }
}

/// The variables that stand for the saved values of the callee-saved
/// registers among the first `n` registers of `table`.
pub open spec fn saved_registers(table: Seq<RegisterView>, n: int) -> Seq<VariableView>
    decreases n,
{
    if n <= 0 {
        Seq::empty()
    } else if table[n - 1].saver == RegisterSaver::Callee {
        saved_registers(table, n - 1).push(saved_register(table[n - 1].name))
    } else {
        saved_registers(table, n - 1)
    }
}

/// The variables that are alive when a function body starts: the scratch
/// register `x8`, kept back as the intermediate of arithmetic, and the
/// value of every callee-saved register, which has to be there again when
/// the function returns.
pub open spec fn initial_variables(table: Seq<RegisterView>) -> Seq<VariableView> {
    seq![
        VariableView { full_name: "arithmetic_reserve"@, positions: seq![PositionView::Register("x8"@)] },
    ] + saved_registers(table, table.len() as int)
}

impl AArch64MacOs {
    /// The variables that are alive when a function body starts.
    pub fn initial_variables(&self) -> (res: Vec<Variable>)
        ensures
            variables_view(res@) == initial_variables(table_view(self.registers@)),
    {
        let ghost table = table_view(self.registers@);
        let mut alive_variables: Vec<Variable> = Vec::new();
        let mut reserved: Vec<DataPosition> = Vec::new();
        reserved.push(DataPosition::Register(String::from_str("x8")));
        let reserve = Variable::new(String::from_str("arithmetic_reserve"), reserved);
        assert(reserve@.positions =~= seq![PositionView::Register("x8"@)]);
        alive_variables.push(reserve);
        assert(variables_view(alive_variables@) =~= seq![reserve@] + saved_registers(table, 0));
        let mut i: usize = 0;
        while i < self.registers.len()
            invariant
                i <= self.registers.len(),
                table == table_view(self.registers@),
                variables_view(alive_variables@) == seq![reserve@] + saved_registers(table, i as int),
            decreases self.registers.len() - i,
        {
            let register = &self.registers[i];
            assert(table[i as int] == register@);
            if let RegisterSaver::Callee = register.saver {
                let ghost before = variables_view(alive_variables@);
                let mut name = String::from_str("saved-register-");
                name.append(register.name.as_str());
                let mut positions: Vec<DataPosition> = Vec::new();
                positions.push(DataPosition::Register(register.name.clone()));
                let saved = Variable::new(name, positions);
                assert(saved@.positions =~= seq![PositionView::Register(register@.name)]);
                alive_variables.push(saved);
                assert(variables_view(alive_variables@) =~= before.push(saved@));
                assert(before.push(saved@) =~= seq![reserve@] + saved_registers(table, i + 1));
            }
            i += 1;
        }
        alive_variables
    }
}

impl Arch for AArch64MacOs {
    open spec fn full_name(&self) -> Seq<char> {
        AArch64MacOs::NAME@
    }

    open spec fn register_width(&self) -> u8 {
        AArch64MacOs::BITS_COUNT
    }

    fn name(&self) -> (res: String) {
        String::from_str(AArch64MacOs::NAME)
    }

    fn architecture_bits(&self) -> (res: u8) {
        AArch64MacOs::BITS_COUNT
    }

    /// Generates the assembly of a function body. None of the macro
    /// instructions has text of its own so far, so the result is empty:
    /// the moves and stores of a body come from the location planner, run
    /// on `initial_variables` and the instructions.
    fn generate_assembly(&self, macro_instructions: Vec<MacroInstruction>) -> (assembly: String)
        ensures
            assembly@ == Seq::<char>::empty(),
    {
        String::new()
    }
}

} // verus!
