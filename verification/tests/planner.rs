use location_planner::aarch64_mac_os::AArch64MacOs;
use location_planner::data_position::DataPosition;
use location_planner::macro_instruction::MacroInstruction;
use location_planner::register::{Register, RegisterSaver, RegisterTag};
use location_planner::variable::Variable;
use location_planner::variable_manager::order_variable_locations;

fn register_names(variable: &Variable) -> Vec<String> {
    variable.positions.iter().filter_map(|p| p.register_name()).collect()
}

fn stack_offsets(variable: &Variable) -> Vec<usize> {
    variable.positions.iter().filter_map(|p| p.immediate_stack_offset()).collect()
}

#[test]
fn test_order_variable_locations() {
    println!();

    let aarch64 = AArch64MacOs::new();
    let aarch64_regs = aarch64.registers;

    let mut variables: Vec<Variable> = Vec::new();

    for register in aarch64_regs.iter().filter(|&x| matches!(x.saver, RegisterSaver::Callee)) {
        let register = register.clone();

        variables.push(Variable::new(
            format!("saved-register-{}", register.name),
            vec![DataPosition::Register(register.name.clone())],
        ));
    }

    let mut stack_offset: usize = 0;

    let var1 = Variable::new("var-1".to_string(), vec![]);
    let var2 = Variable::new("var-2".to_string(), vec![]);
    let var3 = Variable::new("var-3".to_string(), vec![]);

    let mut instructions: Vec<MacroInstruction> = vec![
        MacroInstruction::UseVariableAsArgument(var1.clone(), 0),
        MacroInstruction::UseVariableAsArgument(var2.clone(), 1),
        MacroInstruction::CallFunction("_malloc".to_string(), 2),
        MacroInstruction::UseVariableAsArgument(var3.clone(), 0),
        MacroInstruction::DestroyVariable(var1.clone()),
        MacroInstruction::DestroyVariable(var2.clone()),
    ];

    variables.push(var1.clone());
    variables.push(var2.clone());
    variables.push(var3.clone());

    for i in 4..21 {
        let variable = Variable::new(format!("var-{}", i), vec![]);

        instructions.insert(4, MacroInstruction::UseVariableAsArgument(variable.clone(), 0));

        variables.push(variable.clone());
    }

    println!("{}", order_variable_locations(&mut variables, aarch64_regs, instructions, &mut stack_offset));
}

#[test]
fn other_test() {
    let aarch64 = AArch64MacOs::new();
    let aarch64_regs = aarch64.registers;

    let var_1 = Variable::new("var-1".to_string(), vec![DataPosition::Register("x0".to_string())]);
    let var_2 = Variable::new("var-2".to_string(), vec![DataPosition::Register("x1".to_string())]);

    let instructions: Vec<MacroInstruction> = vec![
        MacroInstruction::UseVariableAsArgument(var_2.clone(), 0),
        MacroInstruction::UseVariableAsArgument(var_1.clone(), 1),
        MacroInstruction::CallFunction("_malloc".to_string(), 2),
    ];

    let mut variables: Vec<Variable> = vec![var_1.clone(), var_2.clone()];
    let mut stack_offset: usize = 0;

    println!("{}", order_variable_locations(&mut variables, aarch64_regs, instructions, &mut stack_offset));
}

#[test]
fn swap_of_two_argument_registers_goes_through_the_scratch_register() {
    let registers = AArch64MacOs::new().registers;
    let var_1 = Variable::new("var_1".to_string(), vec![DataPosition::Register("x0".to_string())]);
    let var_2 = Variable::new("var_2".to_string(), vec![DataPosition::Register("x1".to_string())]);
    let instructions = vec![
        MacroInstruction::UseVariableAsArgument(var_2.clone(), 0),
        MacroInstruction::UseVariableAsArgument(var_1.clone(), 1),
        MacroInstruction::CallFunction("_malloc".to_string(), 2),
    ];
    let mut variables = vec![var_1, var_2];
    let mut stack_offset: usize = 0;

    let code = order_variable_locations(&mut variables, registers, instructions, &mut stack_offset);

    assert_eq!(code, "mov\tx8, x0\nmov\tx0, x1\nmov\tx1, x8\n");
    assert_eq!(stack_offset, 0);
    assert_eq!(variables.len(), 2);
    assert_eq!(variables[0].full_name, "var_1");
    assert_eq!(register_names(&variables[0]), vec!["x1".to_string()]);
    assert_eq!(variables[1].full_name, "var_2");
    assert_eq!(register_names(&variables[1]), vec!["x0".to_string()]);
}

#[test]
fn sixteen_arguments_spill_only_what_exceeds_the_registers() {
    let registers = AArch64MacOs::new().registers;
    let mut variables: Vec<Variable> = Vec::new();
    for register in registers.iter().filter(|&x| matches!(x.saver, RegisterSaver::Callee)) {
        variables.push(Variable::new(
            format!("saved-register-{}", register.name),
            vec![DataPosition::Register(register.name.clone())],
        ));
    }
    let var1 = Variable::new("var-1".to_string(), vec![]);
    let var2 = Variable::new("var-2".to_string(), vec![]);
    let var3 = Variable::new("var-3".to_string(), vec![]);
    let mut instructions = vec![
        MacroInstruction::UseVariableAsArgument(var1.clone(), 0),
        MacroInstruction::UseVariableAsArgument(var2.clone(), 1),
        MacroInstruction::CallFunction("_malloc".to_string(), 2),
        MacroInstruction::UseVariableAsArgument(var3.clone(), 0),
        MacroInstruction::DestroyVariable(var1.clone()),
        MacroInstruction::DestroyVariable(var2.clone()),
    ];
    variables.push(var1);
    variables.push(var2);
    variables.push(var3);
    for i in 4..21 {
        let variable = Variable::new(format!("var-{}", i), vec![]);
        instructions.insert(4, MacroInstruction::UseVariableAsArgument(variable.clone(), 0));
        variables.push(variable);
    }
    let mut stack_offset: usize = 0;

    let code = order_variable_locations(&mut variables, registers, instructions, &mut stack_offset);

    // 29 general-purpose registers stand against 32 demands for one: 3 spills.
    assert_eq!(stack_offset, 24);
    let spilled: Vec<usize> = variables.iter().flat_map(|v| stack_offsets(v)).collect();
    assert_eq!(spilled, vec![0, 8, 16]);
    assert_eq!(stack_offsets(&variables[9]), vec![0]);
    assert_eq!(stack_offsets(&variables[10]), vec![8]);
    assert_eq!(stack_offsets(&variables[11]), vec![16]);
    assert_eq!(
        code,
        "stp\tx28, x29, [sp, #0]\nstr\tx30, [sp, #16]\n\
         mov\tx11, x19\nmov\tx10, x20\nmov\tx9, x21\nmov\tx7, x22\nmov\tx6, x23\n\
         mov\tx5, x24\nmov\tx4, x25\nmov\tx3, x26\nmov\tx2, x27\n"
    );
    assert_eq!(register_names(&variables[13]), vec!["x0".to_string()]);
    assert_eq!(register_names(&variables[14]), vec!["x1".to_string()]);
    assert_eq!(register_names(&variables[15]), vec!["x30".to_string()]);
    assert_eq!(register_names(&variables[12]), vec!["sp".to_string()]);
    assert_eq!(variables.len(), 33);
}

fn small_table() -> Vec<Register> {
    vec![
        Register::new(
            "x0".to_string(),
            64,
            RegisterSaver::Caller,
            vec![RegisterTag::Argument(0), RegisterTag::GeneralPurpose],
        ),
        Register::new("x8".to_string(), 64, RegisterSaver::Scratch, vec![RegisterTag::Scratch]),
    ]
}

#[test]
fn three_variables_without_a_free_register_get_offsets_0_8_16() {
    let holder = Variable::new("holder".to_string(), vec![DataPosition::Register("x0".to_string())]);
    let a = Variable::new("a".to_string(), vec![]);
    let b = Variable::new("b".to_string(), vec![]);
    let c = Variable::new("c".to_string(), vec![]);
    let instructions = vec![
        MacroInstruction::UseVariableAsArgument(holder.clone(), 0),
        MacroInstruction::UseVariableAsArgument(a.clone(), 0),
        MacroInstruction::UseVariableAsArgument(b.clone(), 0),
        MacroInstruction::UseVariableAsArgument(c.clone(), 0),
    ];
    let mut variables = vec![holder, a, b, c];
    let mut stack_offset: usize = 0;

    let code = order_variable_locations(&mut variables, small_table(), instructions, &mut stack_offset);

    assert_eq!(code, "");
    assert_eq!(stack_offset, 24);
    assert_eq!(register_names(&variables[0]), vec!["x0".to_string()]);
    assert_eq!(stack_offsets(&variables[1]), vec![0]);
    assert_eq!(stack_offsets(&variables[2]), vec![8]);
    assert_eq!(stack_offsets(&variables[3]), vec![16]);
    assert_eq!(variables[1].positions.len(), 1);
}
