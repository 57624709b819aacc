use location_planner::aarch64_mac_os::AArch64MacOs;
use location_planner::arch::Arch;
use location_planner::macro_instruction::MacroInstruction;
use location_planner::register::{
    find_all_tagged, find_argument_register, find_tagged, has_at_most_one, is_well_formed, Register, RegisterSaver,
    RegisterTag,
};
use location_planner::variable::{BitUnit, Variable};

#[test]
fn is_argument_goes_by_the_tag() {
    let r = Register::new(
        "x3".to_string(),
        64,
        RegisterSaver::Caller,
        vec![RegisterTag::GeneralPurpose, RegisterTag::Argument(3)],
    );
    assert!(r.is_argument(3));
    assert!(!r.is_argument(0));
    assert!(!r.is_argument(4));
    assert!(r.has_tag(RegisterTag::GeneralPurpose));
    assert!(!r.has_tag(RegisterTag::Scratch));
    let plain = Register::new("x9".to_string(), 64, RegisterSaver::Caller, vec![]);
    assert!(!plain.is_argument(0));
    assert_eq!(r.name, "x3");
    assert_eq!(r.size_bits, 64);
    assert_eq!(r.saver, RegisterSaver::Caller);
}

#[test]
fn the_table_of_the_architecture() {
    let arch = AArch64MacOs::new();
    let names: Vec<&str> = arch.registers.iter().map(|r| r.name.as_str()).collect();
    assert_eq!(names.len(), 32);
    assert_eq!(names[0], "x0");
    assert_eq!(names[9], "x9");
    assert_eq!(names[10], "x10");
    assert_eq!(names[30], "x30");
    assert_eq!(names[31], "sp");
    for (i, r) in arch.registers.iter().enumerate() {
        assert_eq!(r.size_bits, 64);
        if i != 31 {
            assert_eq!(r.name, format!("x{}", i));
        }
    }
    assert_eq!(arch.registers[0].tags, vec![RegisterTag::Argument(0), RegisterTag::GeneralPurpose]);
    assert_eq!(arch.registers[7].tags, vec![RegisterTag::Argument(7), RegisterTag::GeneralPurpose]);
    assert_eq!(arch.registers[8].tags, vec![RegisterTag::Scratch]);
    assert_eq!(arch.registers[8].saver, RegisterSaver::Scratch);
    assert_eq!(arch.registers[9].tags, vec![RegisterTag::GeneralPurpose]);
    assert_eq!(arch.registers[17].saver, RegisterSaver::Caller);
    assert_eq!(arch.registers[18].tags, vec![RegisterTag::NoModify]);
    assert_eq!(arch.registers[18].saver, RegisterSaver::OS);
    assert_eq!(arch.registers[19].saver, RegisterSaver::Callee);
    assert_eq!(arch.registers[29].tags, vec![RegisterTag::GeneralPurpose, RegisterTag::FramePointer]);
    assert_eq!(arch.registers[30].tags, vec![RegisterTag::GeneralPurpose]);
    assert_eq!(arch.registers[31].tags, vec![RegisterTag::StackPointer]);
    assert_eq!(arch.registers[31].saver, RegisterSaver::Callee);
    assert!(is_well_formed(&arch.registers));
}

#[test]
fn lookups_in_the_table() {
    let registers = AArch64MacOs::new().registers;
    assert_eq!(find_tagged(&registers, RegisterTag::Scratch), Some(8));
    assert_eq!(find_tagged(&registers, RegisterTag::GeneralPurpose), Some(0));
    assert_eq!(find_tagged(&registers, RegisterTag::FramePointer), Some(29));
    assert_eq!(find_tagged(&registers, RegisterTag::StackPointer), Some(31));
    assert_eq!(find_tagged(&registers, RegisterTag::Argument(8)), None);
    assert_eq!(find_argument_register(&registers, 0), Some(0));
    assert_eq!(find_argument_register(&registers, 7), Some(7));
    assert_eq!(find_argument_register(&registers, 8), None);
    assert_eq!(find_argument_register(&registers, 256), None);
    assert_eq!(find_argument_register(&registers, 263), None);
    assert!(has_at_most_one(&registers, RegisterTag::Scratch));
    assert!(!has_at_most_one(&registers, RegisterTag::GeneralPurpose));
}

#[test]
fn tables_that_break_the_invariant() {
    let scratch = |name: &str| Register::new(name.to_string(), 64, RegisterSaver::Scratch, vec![RegisterTag::Scratch]);
    let tagged = |name: &str, tag: RegisterTag| Register::new(name.to_string(), 64, RegisterSaver::Caller, vec![tag]);
    assert!(!is_well_formed(&vec![]));
    assert!(!is_well_formed(&vec![tagged("x0", RegisterTag::GeneralPurpose)]));
    assert!(is_well_formed(&vec![scratch("x8")]));
    assert!(!is_well_formed(&vec![scratch("x8"), scratch("x9")]));
    assert!(!is_well_formed(&vec![
        scratch("x8"),
        tagged("sp", RegisterTag::StackPointer),
        tagged("sp2", RegisterTag::StackPointer),
    ]));
    assert!(!is_well_formed(&vec![
        scratch("x8"),
        tagged("fp", RegisterTag::FramePointer),
        tagged("fp2", RegisterTag::FramePointer),
    ]));
    assert!(!is_well_formed(&vec![
        scratch("x8"),
        tagged("a", RegisterTag::Argument(255)),
        tagged("b", RegisterTag::Argument(255)),
    ]));
    assert!(is_well_formed(&vec![
        scratch("x8"),
        tagged("a", RegisterTag::Argument(0)),
        tagged("b", RegisterTag::Argument(1)),
    ]));
}

#[test]
fn name_and_width_of_the_architecture() {
    let arch = AArch64MacOs::new();
    assert_eq!(arch.name(), "aarch64-mac-os");
    assert_eq!(arch.name(), AArch64MacOs::NAME);
    assert_eq!(arch.architecture_bits(), 64);
    assert_eq!(AArch64MacOs::BITS_COUNT, 64);
}

#[test]
fn a_function_body_starts_with_the_reserve_and_the_saved_registers() {
    let arch = AArch64MacOs::new();
    let alive = arch.initial_variables();
    assert_eq!(alive.len(), 14);
    assert_eq!(alive[0].full_name, "arithmetic_reserve");
    assert_eq!(alive[0].positions[0].register_name(), Some("x8".to_string()));
    assert_eq!(alive[1].full_name, "saved-register-x19");
    assert_eq!(alive[1].positions[0].register_name(), Some("x19".to_string()));
    assert_eq!(alive[12].full_name, "saved-register-x30");
    assert_eq!(alive[13].full_name, "saved-register-sp");
    assert_eq!(alive[13].positions[0].register_name(), Some("sp".to_string()));
    for v in alive.iter() {
        assert_eq!(v.positions.len(), 1);
    }
}

#[test]
fn the_instructions_have_no_text_of_their_own() {
    let arch = AArch64MacOs::new();
    let v = Variable::new("v".to_string(), vec![]);
    let text = arch.generate_assembly(vec![
        MacroInstruction::DeclareVariable(v.clone()),
        MacroInstruction::UseVariableAsArgument(v.clone(), 0),
        MacroInstruction::CallFunction("_f".to_string(), 1),
        MacroInstruction::GetArgument(0),
        MacroInstruction::DestroyVariable(v),
    ]);
    assert_eq!(text, "");
    assert_eq!(arch.generate_assembly(vec![]), "");
}

#[test]
fn units_by_width() {
    assert_eq!(BitUnit::of_width(8), Some(BitUnit::Byte));
    assert_eq!(BitUnit::of_width(16), Some(BitUnit::Word));
    assert_eq!(BitUnit::of_width(32), Some(BitUnit::DoubleWord));
    assert_eq!(BitUnit::of_width(64), Some(BitUnit::QuadWord));
    assert_eq!(BitUnit::of_width(0), None);
    assert_eq!(BitUnit::of_width(24), None);
    assert_eq!(BitUnit::of_width(128), None);
}

#[test]
fn the_architecture_maximum_resolves_to_the_unit_of_the_architecture() {
    assert_eq!(BitUnit::ArchitectureMax.resolve(Box::new(AArch64MacOs::new())), BitUnit::QuadWord);
    assert_eq!(BitUnit::Byte.resolve(Box::new(AArch64MacOs::new())), BitUnit::Byte);
    assert_eq!(BitUnit::Word.resolve(Box::new(AArch64MacOs::new())), BitUnit::Word);
    assert_eq!(BitUnit::DoubleWord.resolve(Box::new(AArch64MacOs::new())), BitUnit::DoubleWord);
    assert_eq!(BitUnit::QuadWord.resolve(Box::new(AArch64MacOs::new())), BitUnit::QuadWord);
}

#[test]
fn all_registers_of_a_role() {
    let registers = AArch64MacOs::new().registers;
    assert_eq!(find_all_tagged(&registers, RegisterTag::Scratch), vec![8]);
    assert_eq!(find_all_tagged(&registers, RegisterTag::NoModify), vec![18]);
    assert_eq!(find_all_tagged(&registers, RegisterTag::Argument(3)), vec![3]);
    assert_eq!(find_all_tagged(&registers, RegisterTag::Argument(9)), Vec::<usize>::new());
    let general: Vec<usize> = (0..8).chain(9..18).chain(19..31).collect();
    assert_eq!(find_all_tagged(&registers, RegisterTag::GeneralPurpose), general);
    assert_eq!(find_all_tagged(&registers, RegisterTag::GeneralPurpose).len(), 29);
    assert_eq!(find_all_tagged(&vec![], RegisterTag::GeneralPurpose), Vec::<usize>::new());
}

#[test]
fn the_architecture_maximum_resolves_by_width() {
    assert_eq!(BitUnit::ArchitectureMax.resolve_for_width(8), BitUnit::Byte);
    assert_eq!(BitUnit::ArchitectureMax.resolve_for_width(16), BitUnit::Word);
    assert_eq!(BitUnit::ArchitectureMax.resolve_for_width(32), BitUnit::DoubleWord);
    assert_eq!(BitUnit::ArchitectureMax.resolve_for_width(64), BitUnit::QuadWord);
    assert_eq!(BitUnit::Word.resolve_for_width(64), BitUnit::Word);
    assert_eq!(BitUnit::Byte.resolve_for_width(7), BitUnit::Byte);
    assert_eq!(BitUnit::QuadWord.resolve_for_width(0), BitUnit::QuadWord);
}

#[test]
fn a_resolved_unit_stays_as_it_is() {
    for unit in [BitUnit::Byte, BitUnit::Word, BitUnit::DoubleWord, BitUnit::QuadWord, BitUnit::ArchitectureMax] {
        let once = unit.resolve(Box::new(AArch64MacOs::new()));
        assert_ne!(once, BitUnit::ArchitectureMax);
        assert_eq!(once.resolve(Box::new(AArch64MacOs::new())), once);
        for bits in [0u8, 8, 16, 24, 32, 64, 255] {
            assert_eq!(once.resolve_for_width(bits), once);
        }
    }
    let boxed: Box<dyn Arch> = Box::new(AArch64MacOs::new());
    assert_eq!(BitUnit::ArchitectureMax.resolve(boxed), BitUnit::QuadWord);
}
