use location_planner::aarch64_mac_os::AArch64MacOs;
use location_planner::data_position::DataPosition;
use location_planner::macro_instruction::MacroInstruction;
use location_planner::register::{Register, RegisterSaver, RegisterTag};
use location_planner::variable::Variable;
use location_planner::variable_manager::assignment::{assign_registers, Outcome};
use location_planner::variable_manager::checked::{try_order_variable_locations, PlanError};
use location_planner::variable_manager::demand::{collect_demands, find_demand, retain_live, INFINITE_DISTANCE};
use location_planner::variable_manager::shuffle::{shuffle_registers, Move};
use location_planner::variable_manager::spill::{emit_stores, Store};
use location_planner::variable_manager::{find_place_for_variable, order_variable_locations};

fn in_register(name: &str, register: &str) -> Variable {
    Variable::new(name.to_string(), vec![DataPosition::Register(register.to_string())])
}

fn fresh(name: &str) -> Variable {
    Variable::new(name.to_string(), vec![])
}

fn uses(variable: &Variable, slot: usize) -> MacroInstruction {
    MacroInstruction::UseVariableAsArgument(variable.clone(), slot)
}

fn call(argument_count: usize) -> MacroInstruction {
    MacroInstruction::CallFunction("_f".to_string(), argument_count)
}

fn registers_of(variable: &Variable) -> Vec<String> {
    variable.positions.iter().filter_map(|p| p.register_name()).collect()
}

fn offsets_of(variable: &Variable) -> Vec<usize> {
    variable.positions.iter().filter_map(|p| p.immediate_stack_offset()).collect()
}

fn store(register: &str, offset: usize) -> Store {
    Store { register: register.to_string(), offset }
}

fn pending(variable: usize, source: &str, target: &str) -> Move {
    Move { variable, source: source.to_string(), target: target.to_string() }
}

fn two_argument_table() -> Vec<Register> {
    vec![
        Register::new(
            "x0".to_string(),
            64,
            RegisterSaver::Caller,
            vec![RegisterTag::Argument(0), RegisterTag::GeneralPurpose],
        ),
        Register::new(
            "x1".to_string(),
            64,
            RegisterSaver::Caller,
            vec![RegisterTag::Argument(1), RegisterTag::GeneralPurpose],
        ),
        Register::new("x8".to_string(), 64, RegisterSaver::Scratch, vec![RegisterTag::Scratch]),
    ]
}

#[test]
fn adjacent_stores_are_paired_with_the_lower_slot_first() {
    let mut text = String::new();
    emit_stores(&mut text, &vec![store("x3", 16), store("x4", 24)]);
    assert_eq!(text, "stp\tx3, x4, [sp, #16]\n");
    let mut text = String::new();
    emit_stores(&mut text, &vec![store("x3", 24), store("x4", 16)]);
    assert_eq!(text, "stp\tx4, x3, [sp, #16]\n");
}

#[test]
fn stores_that_are_not_adjacent_are_made_one_by_one() {
    let mut text = String::new();
    emit_stores(&mut text, &vec![store("x3", 0), store("x4", 16)]);
    assert_eq!(text, "str\tx3, [sp, #0]\nstr\tx4, [sp, #16]\n");
    let mut text = String::new();
    emit_stores(&mut text, &vec![store("x3", 8), store("x4", 8)]);
    assert_eq!(text, "str\tx3, [sp, #8]\nstr\tx4, [sp, #8]\n");
    let mut text = String::new();
    emit_stores(&mut text, &vec![store("x3", 4), store("x4", 0)]);
    assert_eq!(text, "str\tx3, [sp, #4]\nstr\tx4, [sp, #0]\n");
}

#[test]
fn stores_are_taken_two_by_two_and_the_last_alone() {
    let mut text = "; spills\n".to_string();
    emit_stores(
        &mut text,
        &vec![store("x1", 0), store("x2", 8), store("x3", 16), store("x4", 1024), store("x5", 18446744073709551608)],
    );
    assert_eq!(
        text,
        "; spills\nstp\tx1, x2, [sp, #0]\nstr\tx3, [sp, #16]\nstr\tx4, [sp, #1024]\n\
         str\tx5, [sp, #18446744073709551608]\n"
    );
    let mut text = String::new();
    emit_stores(&mut text, &vec![]);
    assert_eq!(text, "");
    emit_stores(&mut text, &vec![store("x9", 109)]);
    assert_eq!(text, "str\tx9, [sp, #109]\n");
}

#[test]
fn moves_that_do_not_collide_are_made_in_order() {
    let mut text = String::new();
    let placed = shuffle_registers(
        &mut text,
        vec![pending(0, "x1", "x2"), pending(1, "x3", "x4")],
        &"x8".to_string(),
    );
    assert_eq!(text, "mov\tx2, x1\nmov\tx4, x3\n");
    assert_eq!(placed.len(), 2);
    assert_eq!((placed[0].variable, placed[0].register.as_str()), (0, "x2"));
    assert_eq!((placed[1].variable, placed[1].register.as_str()), (1, "x4"));
}

#[test]
fn a_chain_of_moves_is_made_from_its_end() {
    let mut text = String::new();
    let placed = shuffle_registers(
        &mut text,
        vec![pending(0, "x0", "x1"), pending(1, "x1", "x2"), pending(2, "x2", "x3")],
        &"x8".to_string(),
    );
    assert_eq!(text, "mov\tx3, x2\nmov\tx2, x1\nmov\tx1, x0\n");
    assert_eq!(placed.iter().map(|p| p.variable).collect::<Vec<usize>>(), vec![2, 1, 0]);
}

#[test]
fn a_rotation_of_three_registers_takes_one_relay() {
    let mut text = String::new();
    let placed = shuffle_registers(
        &mut text,
        vec![pending(0, "x0", "x1"), pending(1, "x1", "x2"), pending(2, "x2", "x0")],
        &"x8".to_string(),
    );
    assert_eq!(text, "mov\tx8, x1\nmov\tx1, x0\nmov\tx0, x2\nmov\tx2, x8\n");
    assert_eq!(placed.len(), 3);
    let mut at: Vec<(usize, String)> = placed.iter().map(|p| (p.variable, p.register.clone())).collect();
    at.sort();
    assert_eq!(at, vec![(0, "x1".to_string()), (1, "x2".to_string()), (2, "x0".to_string())]);
}

#[test]
fn two_cycles_are_broken_one_after_the_other() {
    let mut text = String::new();
    let placed = shuffle_registers(
        &mut text,
        vec![pending(0, "x0", "x1"), pending(1, "x2", "x3"), pending(2, "x1", "x0"), pending(3, "x3", "x2")],
        &"x8".to_string(),
    );
    assert_eq!(
        text,
        "mov\tx8, x1\nmov\tx1, x0\nmov\tx0, x8\nmov\tx8, x3\nmov\tx3, x2\nmov\tx2, x8\n"
    );
    assert_eq!(placed.len(), 4);
}

#[test]
fn a_cycle_through_the_scratch_register_is_left_alone() {
    let mut text = String::new();
    let placed = shuffle_registers(
        &mut text,
        vec![pending(4, "x8", "x0"), pending(7, "x0", "x8")],
        &"x8".to_string(),
    );
    assert_eq!(text, "");
    assert_eq!(placed.len(), 2);
    assert_eq!((placed[0].variable, placed[0].register.as_str()), (4, "x8"));
    assert_eq!((placed[1].variable, placed[1].register.as_str()), (7, "x0"));
}

#[test]
fn no_moves_no_text() {
    let mut text = "keep".to_string();
    let placed = shuffle_registers(&mut text, vec![], &"x8".to_string());
    assert_eq!(text, "keep");
    assert!(placed.is_empty());
}

#[test]
fn a_variable_destroyed_at_once_is_gone() {
    let doomed = in_register("doomed", "x1");
    let other = in_register("other", "x0");
    let instructions = vec![MacroInstruction::DestroyVariable(doomed.clone()), uses(&other, 1), uses(&doomed, 0), call(2)];
    let mut variables = vec![doomed.clone(), other.clone()];
    let mut stack_offset: usize = 64;
    let code = order_variable_locations(&mut variables, two_argument_table(), instructions.clone(), &mut stack_offset);
    assert_eq!(variables.len(), 1);
    assert_eq!(variables[0].full_name, "other");
    assert_eq!(registers_of(&variables[0]), vec!["x1".to_string()]);
    assert_eq!(code, "mov\tx1, x0\n");
    assert_eq!(stack_offset, 64);

    let mut without = vec![other];
    let mut offset_without: usize = 64;
    let code_without = order_variable_locations(&mut without, two_argument_table(), instructions, &mut offset_without);
    assert_eq!(code, code_without);
    assert_eq!(stack_offset, offset_without);
}

#[test]
fn a_variable_destroyed_later_stays() {
    let v = in_register("v", "x0");
    let instructions = vec![uses(&v, 0), call(1), MacroInstruction::DestroyVariable(v.clone())];
    let mut variables = vec![v.clone()];
    let live = retain_live(&variables, &instructions);
    assert_eq!(live.len(), 1);
    let mut stack_offset: usize = 0;
    let code = order_variable_locations(&mut variables, two_argument_table(), instructions, &mut stack_offset);
    assert_eq!(variables.len(), 1);
    assert_eq!(code, "");
}

#[test]
fn demands_of_uses() {
    let registers = AArch64MacOs::new().registers;
    let resident = in_register("resident", "x1");
    let elsewhere = in_register("elsewhere", "x5");
    let idle = in_register("idle", "x6");
    let stray = fresh("stray");
    let instructions = vec![
        uses(&elsewhere, 0),
        call(1),
        uses(&resident, 1),
        uses(&elsewhere, 1),
        call(2),
    ];
    let (target, distance) = find_demand(&resident, &registers, &instructions).unwrap();
    assert_eq!((target.register_name(), distance), (Some("x1".to_string()), 0));
    let (target, distance) = find_demand(&elsewhere, &registers, &instructions).unwrap();
    assert_eq!((target.register_name(), distance), (Some("x0".to_string()), 0));
    let (target, distance) = find_demand(&idle, &registers, &instructions).unwrap();
    assert_eq!((target.register_name(), distance), (Some("x6".to_string()), INFINITE_DISTANCE));
    assert_eq!(INFINITE_DISTANCE, usize::MAX);
    assert!(find_demand(&stray, &registers, &instructions).is_none());

    let late = fresh("late");
    let stream = vec![call(0), call(0), uses(&late, 3)];
    let (target, distance) = find_demand(&late, &registers, &stream).unwrap();
    assert_eq!((target.register_name(), distance), (Some("x3".to_string()), 2));
}

#[test]
fn a_use_beyond_the_argument_registers_asks_for_the_stack_only_when_it_is_next() {
    let registers = AArch64MacOs::new().registers;
    let v = in_register("v", "x3");
    let (target, distance) = find_demand(&v, &registers, &vec![uses(&v, 8)]).unwrap();
    assert_eq!((target.immediate_stack_offset(), distance), (Some(0), 0));
    let (target, distance) = find_demand(&v, &registers, &vec![call(0), uses(&v, 8)]).unwrap();
    assert_eq!((target.register_name(), distance), (Some("x3".to_string()), usize::MAX));
    let (target, distance) = find_demand(&v, &registers, &vec![call(0), uses(&v, 8), uses(&v, 2)]).unwrap();
    assert_eq!((target.register_name(), distance), (Some("x2".to_string()), 2));
    let (target, distance) = find_demand(&v, &registers, &vec![uses(&v, 256)]).unwrap();
    assert_eq!((target.immediate_stack_offset(), distance), (Some(0), 0));

    let mut variables = vec![v.clone()];
    let mut stack_offset: usize = 8;
    let code = order_variable_locations(&mut variables, registers, vec![uses(&v, 8)], &mut stack_offset);
    assert_eq!(code, "");
    assert_eq!(stack_offset, 8);
    assert_eq!(registers_of(&variables[0]), vec!["x3".to_string()]);
}

#[test]
fn the_agenda_is_sorted_by_distance_and_keeps_the_order_of_equals() {
    let registers = AArch64MacOs::new().registers;
    let a = in_register("a", "x9");
    let b = fresh("b");
    let c = in_register("c", "x10");
    let d = fresh("d");
    let e = fresh("e");
    let instructions = vec![uses(&d, 0), uses(&b, 1), call(2), uses(&e, 0)];
    let live = vec![a, b, c, d, e, fresh("stray")];
    let agenda = collect_demands(&live, &registers, &instructions);
    let order: Vec<(usize, usize)> = agenda.iter().map(|x| (x.variable, x.distance)).collect();
    assert_eq!(order, vec![(3, 0), (1, 1), (4, 3), (0, usize::MAX), (2, usize::MAX)]);
    assert_eq!(agenda[2].target.register_name(), Some("x0".to_string()));
}

#[test]
fn outcomes_of_the_assignment() {
    let registers = two_argument_table();
    let a = fresh("a");
    let b = fresh("b");
    let c = Variable::new(
        "c".to_string(),
        vec![DataPosition::Register("x1".to_string()), DataPosition::StackOffset(40)],
    );
    let d = in_register("d", "x0");
    let e = Variable::new("e".to_string(), vec![DataPosition::StackOffset(48)]);
    let instructions = vec![uses(&a, 0), uses(&b, 0)];
    let live = vec![a, b, c, d, e];
    let agenda = collect_demands(&live, &registers, &instructions);
    let mut stack_offset: usize = 16;
    let outcomes = assign_registers(&live, &registers, &agenda, &mut stack_offset);
    assert_eq!(agenda.iter().map(|x| x.variable).collect::<Vec<usize>>(), vec![0, 1, 2, 3, 4]);
    assert_eq!(
        outcomes,
        vec![Outcome::Claimed(0), Outcome::Claimed(1), Outcome::Collapsed, Outcome::Spilled(16), Outcome::Kept]
    );
    assert_eq!(stack_offset, 24);
}

#[test]
fn the_least_wanted_register_is_taken_when_the_wanted_one_is_gone() {
    let table = |names: &[&str]| -> Vec<Register> {
        let mut t: Vec<Register> = names
            .iter()
            .enumerate()
            .map(|(i, n)| {
                Register::new(
                    n.to_string(),
                    64,
                    RegisterSaver::Caller,
                    vec![RegisterTag::Argument(i as u8), RegisterTag::GeneralPurpose],
                )
            })
            .collect();
        t.push(Register::new("x8".to_string(), 64, RegisterSaver::Scratch, vec![RegisterTag::Scratch]));
        t
    };
    let a = fresh("a");
    let b = fresh("b");
    let c = fresh("c");
    let d = fresh("d");
    // a and b both want x0; x1 is wanted at distance 5, x2 at distance 3, x3 by nobody.
    let instructions = vec![uses(&a, 0), uses(&b, 0), call(1), uses(&d, 2), call(3), uses(&c, 1)];
    let mut variables = vec![a, b, c, d];
    let mut stack_offset: usize = 0;
    let code = order_variable_locations(
        &mut variables,
        table(&["x0", "x1", "x2", "x3"]),
        instructions.clone(),
        &mut stack_offset,
    );
    assert_eq!(code, "");
    assert_eq!(registers_of(&variables[0]), vec!["x0".to_string()]);
    assert_eq!(registers_of(&variables[1]), vec!["x3".to_string()]);
    assert_eq!(registers_of(&variables[2]), vec!["x1".to_string()]);
    assert_eq!(registers_of(&variables[3]), vec!["x2".to_string()]);

    // Without x3 the register that is wanted latest goes: x1.
    let mut variables = vec![fresh("a"), fresh("b"), fresh("c"), fresh("d")];
    let code = order_variable_locations(&mut variables, table(&["x0", "x1", "x2"]), instructions, &mut stack_offset);
    assert_eq!(code, "");
    assert_eq!(registers_of(&variables[1]), vec!["x1".to_string()]);
    assert_eq!(registers_of(&variables[3]), vec!["x2".to_string()]);
    assert_eq!(offsets_of(&variables[2]), vec![0]);
    assert_eq!(stack_offset, 8);
}

#[test]
fn a_variable_with_a_stack_copy_gives_up_its_register_without_code() {
    let a = fresh("a");
    let b = fresh("b");
    let mirrored = Variable::new(
        "mirrored".to_string(),
        vec![DataPosition::Register("x0".to_string()), DataPosition::StackOffset(32)],
    );
    let instructions = vec![uses(&a, 0), uses(&b, 1), call(2)];
    let mut variables = vec![mirrored, a, b];
    let mut stack_offset: usize = 40;
    let code = order_variable_locations(&mut variables, two_argument_table(), instructions, &mut stack_offset);
    assert_eq!(code, "");
    assert_eq!(stack_offset, 40);
    assert_eq!(variables[0].positions.len(), 1);
    assert_eq!(offsets_of(&variables[0]), vec![32]);
    assert_eq!(registers_of(&variables[1]), vec!["x0".to_string()]);
    assert_eq!(registers_of(&variables[2]), vec!["x1".to_string()]);
}

#[test]
fn displaced_registers_are_stored_before_anything_moves() {
    let held_0 = in_register("held-0", "x0");
    let held_1 = in_register("held-1", "x1");
    let a = fresh("a");
    let b = fresh("b");
    let instructions = vec![uses(&a, 0), uses(&b, 1), call(2)];
    let mut variables = vec![held_0, held_1, a, b];
    let mut stack_offset: usize = 16;
    let code = order_variable_locations(&mut variables, two_argument_table(), instructions, &mut stack_offset);
    assert_eq!(code, "stp\tx0, x1, [sp, #16]\n");
    assert_eq!(stack_offset, 32);
    assert_eq!(offsets_of(&variables[0]), vec![16]);
    assert_eq!(offsets_of(&variables[1]), vec![24]);
    assert_eq!(variables[0].positions.len(), 1);
    assert_eq!(registers_of(&variables[2]), vec!["x0".to_string()]);
    assert_eq!(registers_of(&variables[3]), vec!["x1".to_string()]);
}

#[test]
fn planning_again_for_settled_variables_emits_nothing() {
    let registers = AArch64MacOs::new().registers;
    let a = in_register("a", "x5");
    let b = in_register("b", "x6");
    let c = Variable::new("c".to_string(), vec![DataPosition::StackOffset(8)]);
    let instructions = vec![uses(&a, 0), uses(&b, 1), call(2)];
    let mut variables = vec![a, b, c];
    let mut stack_offset: usize = 16;
    let first = order_variable_locations(&mut variables, registers.clone(), instructions.clone(), &mut stack_offset);
    assert_eq!(first, "mov\tx0, x5\nmov\tx1, x6\n");
    let settled: Vec<String> = variables.iter().map(|v| format!("{:?}", v)).collect();
    let second = order_variable_locations(&mut variables, registers, instructions, &mut stack_offset);
    assert_eq!(second, "");
    assert_eq!(stack_offset, 16);
    assert_eq!(variables.iter().map(|v| format!("{:?}", v)).collect::<Vec<String>>(), settled);
}

#[test]
fn a_variable_that_waits_in_its_argument_register_stays_there() {
    let registers = AArch64MacOs::new().registers;
    let waiting = Variable::new(
        "waiting".to_string(),
        vec![DataPosition::Register("x1".to_string()), DataPosition::StackOffset(24)],
    );
    let other = in_register("other", "x9");
    let instructions = vec![uses(&other, 0), call(1), uses(&other, 0), uses(&waiting, 1), call(2)];
    let mut variables = vec![other, waiting];
    let mut stack_offset: usize = 0;
    let code = order_variable_locations(&mut variables, registers, instructions, &mut stack_offset);
    assert_eq!(code, "mov\tx0, x9\n");
    assert_eq!(registers_of(&variables[1]), vec!["x1".to_string()]);
    assert_eq!(offsets_of(&variables[1]), vec![24]);
    assert_eq!(variables[1].positions.len(), 2);
}

#[test]
fn a_request_for_any_register_gets_one_without_code() {
    let wish = Variable::new("wish".to_string(), vec![DataPosition::general_purpose_register()]);
    let mut variables = vec![wish];
    let mut stack_offset: usize = 0;
    let code = order_variable_locations(&mut variables, two_argument_table(), vec![], &mut stack_offset);
    assert_eq!(code, "");
    assert_eq!(registers_of(&variables[0]), vec!["x1".to_string()]);
    assert_eq!(variables[0].positions.len(), 1);
    assert!(!variables[0].positions[0].is_general_purpose_register());
}

#[test]
fn a_value_in_memory_is_not_loaded() {
    let on_stack = Variable::new("on-stack".to_string(), vec![DataPosition::StackOffset(8)]);
    let on_heap = Variable::new(
        "on-heap".to_string(),
        vec![DataPosition::Heap(Box::new(DataPosition::StackOffset(16)), 64)],
    );
    let instructions = vec![uses(&on_stack, 0), uses(&on_heap, 1), call(2)];
    let mut variables = vec![on_stack, on_heap];
    let mut stack_offset: usize = 24;
    let code = order_variable_locations(&mut variables, two_argument_table(), instructions, &mut stack_offset);
    assert_eq!(code, "");
    assert_eq!(stack_offset, 24);
    assert_eq!(offsets_of(&variables[0]), vec![8]);
    assert_eq!(variables[1].positions[0].cost(), 3);
}

#[test]
fn without_instructions_and_variables_nothing_happens() {
    let mut variables: Vec<Variable> = vec![];
    let mut stack_offset: usize = 7;
    let code = order_variable_locations(&mut variables, two_argument_table(), vec![], &mut stack_offset);
    assert_eq!(code, "");
    assert_eq!(stack_offset, 7);
    assert!(variables.is_empty());
    let mut strays = vec![fresh("s"), fresh("t")];
    let code = order_variable_locations(&mut strays, two_argument_table(), vec![call(0)], &mut stack_offset);
    assert_eq!(code, "");
    assert!(strays[0].positions.is_empty() && strays[1].positions.is_empty());
}

#[test]
fn find_place_for_variable_leaves_the_variable_alone() {
    let mut v = in_register("v", "x4");
    find_place_for_variable(&mut v, 8, vec![fresh("w")], vec![call(0)]);
    assert_eq!(v.full_name, "v");
    assert_eq!(registers_of(&v), vec!["x4".to_string()]);
}

#[test]
fn the_checked_planner_plans_what_can_be_planned() {
    let registers = AArch64MacOs::new().registers;
    let var_1 = in_register("var_1", "x0");
    let var_2 = in_register("var_2", "x1");
    let instructions = vec![uses(&var_2, 0), uses(&var_1, 1), call(2)];
    let mut variables = vec![var_1, var_2];
    let mut stack_offset: usize = 0;
    let res = try_order_variable_locations(&mut variables, registers, instructions, &mut stack_offset);
    assert_eq!(res, Ok("mov\tx8, x0\nmov\tx0, x1\nmov\tx1, x8\n".to_string()));
    assert_eq!(registers_of(&variables[0]), vec!["x1".to_string()]);
}

#[test]
fn the_checked_planner_says_why_it_cannot_plan() {
    let no_scratch = vec![Register::new(
        "x0".to_string(),
        64,
        RegisterSaver::Caller,
        vec![RegisterTag::Argument(0), RegisterTag::GeneralPurpose],
    )];
    let mut variables = vec![in_register("v", "x77")];
    let mut stack_offset: usize = usize::MAX;
    assert_eq!(
        try_order_variable_locations(&mut variables, no_scratch, vec![], &mut stack_offset),
        Err(PlanError::MalformedTable)
    );
    assert_eq!(
        try_order_variable_locations(&mut variables, two_argument_table(), vec![], &mut stack_offset),
        Err(PlanError::UnknownRegister)
    );
    assert_eq!(registers_of(&variables[0]), vec!["x77".to_string()]);
    assert_eq!(stack_offset, usize::MAX);

    let mut known = vec![in_register("v", "x0"), fresh("w")];
    let mut nearly_full: usize = usize::MAX - 15;
    assert_eq!(
        try_order_variable_locations(&mut known, two_argument_table(), vec![], &mut nearly_full),
        Err(PlanError::StackOverflow)
    );
    let mut room_for_two: usize = usize::MAX - 16;
    assert_eq!(
        try_order_variable_locations(&mut known, two_argument_table(), vec![], &mut room_for_two),
        Ok(String::new())
    );
    assert_eq!(room_for_two, usize::MAX - 16);
}

fn run_moves(text: &str, file: &mut Vec<(String, u64)>) {
    for line in text.lines() {
        let rest = line.strip_prefix("mov\t").unwrap();
        let (target, source) = rest.split_once(", ").unwrap();
        let value = file.iter().find(|(name, _)| name == source).unwrap().1;
        file.iter_mut().find(|(name, _)| name == target).unwrap().1 = value;
    }
}

#[test]
fn the_moves_bring_every_value_to_its_target() {
    let names = ["x0", "x1", "x2", "x3", "x4", "x5", "x8"];
    let mut file: Vec<(String, u64)> = names.iter().enumerate().map(|(i, n)| (n.to_string(), 100 + i as u64)).collect();
    let moves = vec![
        pending(0, "x0", "x1"),
        pending(1, "x1", "x2"),
        pending(2, "x2", "x0"),
        pending(3, "x3", "x4"),
        pending(4, "x0", "x5"),
    ];
    let mut text = String::new();
    let placed = shuffle_registers(&mut text, moves, &"x8".to_string());
    run_moves(&text, &mut file);
    let value = |name: &str| file.iter().find(|(n, _)| n == name).unwrap().1;
    assert_eq!(value("x1"), 100);
    assert_eq!(value("x2"), 101);
    assert_eq!(value("x0"), 102);
    assert_eq!(value("x4"), 103);
    assert_eq!(value("x5"), 100);
    assert_eq!(value("x3"), 103);
    assert_eq!(placed.len(), 5);
    let mut at: Vec<(usize, String)> = placed.iter().map(|p| (p.variable, p.register.clone())).collect();
    at.sort();
    assert_eq!(
        at,
        vec![
            (0, "x1".to_string()),
            (1, "x2".to_string()),
            (2, "x0".to_string()),
            (3, "x4".to_string()),
            (4, "x5".to_string()),
        ]
    );
}
