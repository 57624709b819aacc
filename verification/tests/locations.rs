use location_planner::data_position::DataPosition;
use location_planner::variable::Variable;

fn register(name: &str) -> DataPosition {
    DataPosition::Register(name.to_string())
}

fn indirect(inner: DataPosition) -> DataPosition {
    DataPosition::StackOffsetAt(Box::new(inner))
}

fn heap(inner: DataPosition, size: usize) -> DataPosition {
    DataPosition::Heap(Box::new(inner), size)
}

#[test]
fn cost_of_each_kind_of_location() {
    assert_eq!(register("x3").cost(), 0);
    assert_eq!(DataPosition::StackOffset(40).cost(), 1);
    assert_eq!(indirect(register("x3")).cost(), 1);
    assert_eq!(indirect(DataPosition::StackOffset(8)).cost(), 2);
    assert_eq!(heap(register("x3"), 16).cost(), 2);
    assert_eq!(heap(DataPosition::StackOffset(8), 16).cost(), 3);
    assert_eq!(heap(indirect(indirect(register("x1"))), 4).cost(), 4);
    assert_eq!(heap(indirect(DataPosition::StackOffset(0)), 4).checked_cost(), Some(4));
}

#[test]
fn register_queries() {
    let x0 = register("x0");
    assert!(x0.is_register("x0".to_string()));
    assert!(!x0.is_register("x1".to_string()));
    assert!(!DataPosition::StackOffset(0).is_register("x0".to_string()));
    assert_eq!(x0.register_name(), Some("x0".to_string()));
    assert_eq!(DataPosition::StackOffset(8).register_name(), None);
    assert_eq!(indirect(register("x0")).register_name(), None);
    assert_eq!(heap(register("x0"), 8).register_name(), None);
}

#[test]
fn only_a_direct_slot_has_an_immediate_offset() {
    assert_eq!(DataPosition::StackOffset(24).immediate_stack_offset(), Some(24));
    assert_eq!(register("x0").immediate_stack_offset(), None);
    assert_eq!(indirect(DataPosition::StackOffset(24)).immediate_stack_offset(), None);
    assert_eq!(heap(DataPosition::StackOffset(24), 8).immediate_stack_offset(), None);
}

#[test]
fn the_request_for_any_register_is_a_register_with_a_reserved_name() {
    let any = DataPosition::general_purpose_register();
    assert!(any.is_general_purpose_register());
    assert_eq!(any.register_name(), Some("generalPurposeRegister".to_string()));
    assert_eq!(any.cost(), 0);
    assert!(!register("x0").is_general_purpose_register());
    assert!(!DataPosition::StackOffset(0).is_general_purpose_register());
}

#[test]
fn clone_keeps_the_location() {
    let p = heap(indirect(register("x7")), 32);
    let q = p.clone();
    assert_eq!(format!("{:?}", p), format!("{:?}", q));
}

#[test]
fn cheapest_location_of_no_locations_is_none() {
    let v = Variable::new("v".to_string(), vec![]);
    assert!(v.get_cheapest_position().is_none());
    assert!(!v.has_stack_position());
    assert_eq!(v.get_stack_offset(), None);
    assert!(v.holds_no_value());
    assert_eq!(v.value_register(), None);
}

#[test]
fn cheapest_location_prefers_the_register() {
    let v = Variable::new("v".to_string(), vec![DataPosition::StackOffset(8), register("x4")]);
    assert_eq!(v.get_cheapest_position().unwrap().register_name(), Some("x4".to_string()));
    let w = Variable::new("w".to_string(), vec![register("x4"), DataPosition::StackOffset(8)]);
    assert_eq!(w.get_cheapest_position().unwrap().register_name(), Some("x4".to_string()));
    assert_eq!(w.value_register(), Some("x4".to_string()));
    assert!(w.is_in_register(&"x4".to_string()));
    assert!(!w.is_in_register(&"x5".to_string()));
}

#[test]
fn cheapest_location_prefers_the_direct_slot() {
    let v = Variable::new(
        "v".to_string(),
        vec![indirect(DataPosition::StackOffset(0)), DataPosition::StackOffset(8)],
    );
    assert_eq!(v.get_cheapest_position().unwrap().immediate_stack_offset(), Some(8));
    let w = Variable::new(
        "w".to_string(),
        vec![DataPosition::StackOffset(8), indirect(register("x1"))],
    );
    assert_eq!(w.get_cheapest_position().unwrap().immediate_stack_offset(), Some(8));
}

#[test]
fn of_equally_cheap_locations_the_direct_slot_is_the_cheapest() {
    let v = Variable::new(
        "v".to_string(),
        vec![indirect(register("x1")), DataPosition::StackOffset(16)],
    );
    let best = v.get_cheapest_position().unwrap();
    assert_eq!(best.immediate_stack_offset(), Some(16));
    assert_eq!(best.cost(), 1);
    let w = Variable::new(
        "w".to_string(),
        vec![
            indirect(register("x1")),
            heap(register("x2"), 8),
            DataPosition::StackOffset(24),
            indirect(register("x3")),
            DataPosition::StackOffset(32),
        ],
    );
    assert_eq!(w.get_cheapest_position().unwrap().immediate_stack_offset(), Some(24));
}

#[test]
fn of_equally_cheap_locations_of_one_kind_the_first_is_the_cheapest() {
    let w = Variable::new("w".to_string(), vec![register("x2"), register("x3")]);
    assert_eq!(w.get_cheapest_position().unwrap().register_name(), Some("x2".to_string()));
    let v = Variable::new("v".to_string(), vec![indirect(register("x4")), indirect(register("x5"))]);
    assert_eq!(
        format!("{:?}", v.get_cheapest_position().unwrap()),
        format!("{:?}", indirect(register("x4")))
    );
    let u = Variable::new(
        "u".to_string(),
        vec![heap(register("x4"), 8), indirect(DataPosition::StackOffset(0)), heap(register("x5"), 8)],
    );
    assert_eq!(format!("{:?}", u.get_cheapest_position().unwrap()), format!("{:?}", heap(register("x4"), 8)));
}

#[test]
fn preference_between_two_locations() {
    assert!(register("x0").is_preferred_to(&DataPosition::StackOffset(0)));
    assert!(!DataPosition::StackOffset(0).is_preferred_to(&register("x0")));
    assert!(DataPosition::StackOffset(0).is_preferred_to(&indirect(register("x0"))));
    assert!(!indirect(register("x0")).is_preferred_to(&DataPosition::StackOffset(0)));
    assert!(!register("x0").is_preferred_to(&register("x1")));
    assert!(!DataPosition::StackOffset(0).is_preferred_to(&DataPosition::StackOffset(8)));
    assert!(!heap(register("x0"), 8).is_preferred_to(&indirect(DataPosition::StackOffset(0))));
    assert!(!indirect(DataPosition::StackOffset(0)).is_preferred_to(&heap(register("x0"), 8)));
    assert!(DataPosition::StackOffset(0).is_preferred_to(&indirect(DataPosition::StackOffset(0))));
}

#[test]
fn stack_locations_are_found() {
    let direct = Variable::new("d".to_string(), vec![register("x0"), DataPosition::StackOffset(16)]);
    assert!(direct.has_stack_position());
    assert_eq!(direct.get_stack_offset(), Some(16));
    let only_indirect = Variable::new("i".to_string(), vec![indirect(register("x0"))]);
    assert!(only_indirect.has_stack_position());
    assert_eq!(only_indirect.get_stack_offset(), None);
    let none = Variable::new("n".to_string(), vec![register("x0"), heap(register("x1"), 8)]);
    assert!(!none.has_stack_position());
    assert_eq!(none.get_stack_offset(), None);
}

#[test]
fn collapse_keeps_the_direct_slot() {
    let mut v = Variable::new(
        "v".to_string(),
        vec![
            register("x0"),
            DataPosition::StackOffset(16),
            indirect(register("x1")),
            heap(register("x2"), 8),
        ],
    );
    v.remove_everything_except_stack_position();
    assert_eq!(v.positions.len(), 1);
    assert_eq!(v.positions[0].immediate_stack_offset(), Some(16));
    assert_eq!(v.full_name, "v");
}

#[test]
fn collapse_takes_the_last_of_several_direct_slots() {
    let mut v = Variable::new(
        "v".to_string(),
        vec![DataPosition::StackOffset(16), DataPosition::StackOffset(32), register("x0")],
    );
    assert_eq!(v.get_stack_offset(), Some(32));
    v.remove_everything_except_stack_position();
    assert_eq!(v.positions.len(), 1);
    assert_eq!(v.positions[0].immediate_stack_offset(), Some(32));
}

#[test]
fn collapse_takes_the_cheapest_indirect_slot() {
    let mut v = Variable::new(
        "v".to_string(),
        vec![
            indirect(DataPosition::StackOffset(8)),
            indirect(register("x5")),
            indirect(heap(register("x6"), 8)),
            register("x0"),
        ],
    );
    v.remove_everything_except_stack_position();
    assert_eq!(v.positions.len(), 1);
    assert_eq!(v.positions[0].cost(), 1);
    assert_eq!(format!("{:?}", v.positions[0]), format!("{:?}", indirect(register("x5"))));
}

#[test]
fn collapse_without_a_stack_location_leaves_nothing() {
    let mut v = Variable::new("v".to_string(), vec![register("x0"), heap(register("x1"), 8)]);
    v.remove_everything_except_stack_position();
    assert!(v.positions.is_empty());
}

#[test]
fn a_variable_with_nothing_but_requests_holds_no_value() {
    let v = Variable::new("v".to_string(), vec![DataPosition::general_purpose_register()]);
    assert!(v.holds_no_value());
    assert_eq!(v.value_register(), None);
    let w = Variable::new(
        "w".to_string(),
        vec![DataPosition::general_purpose_register(), DataPosition::StackOffset(0)],
    );
    assert!(!w.holds_no_value());
    assert!(v.has_fitting_costs());
}
