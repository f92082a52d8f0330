use petsel::graph::{BuildError, Instruction, ValueGraph};
use petsel::opcode::{Loc, Opcode};
use petsel::pattern::{Pattern, Tile};
use petsel::select::{select, Choice, SelectError, Selection};

fn names(v: &[&str]) -> Vec<String> {
    v.iter().map(|s| s.to_string()).collect()
}

fn mul_add_program() -> Vec<Instruction> {
    vec![
        Instruction::new(Opcode::Mul, "t0", "a", "b"),
        Instruction::new(Opcode::Add, "t1", "t0", "c"),
    ]
}

fn fused_tile() -> Tile {
    Tile::new(
        Pattern::with_operands(Opcode::Add, Some(Pattern::new(Opcode::Mul)), None),
        Loc::Dsp,
        1,
    )
}

fn base_catalog() -> Vec<Tile> {
    vec![
        Tile::new(Pattern::new(Opcode::Add), Loc::Lut, 3),
        Tile::new(Pattern::new(Opcode::Mul), Loc::Dsp, 1),
        Tile::new(Pattern::new(Opcode::Ref), Loc::Gen, 0),
    ]
}

fn fused_catalog() -> Vec<Tile> {
    let mut cat = vec![fused_tile()];
    cat.extend(base_catalog());
    cat
}

fn build(inputs: &[&str], program: &[Instruction]) -> ValueGraph {
    ValueGraph::build(&names(inputs), &program.to_vec()).expect("program builds")
}

fn index(g: &ValueGraph, name: &str) -> usize {
    g.find(&name.to_string()).expect("node exists")
}

fn choice_of(g: &ValueGraph, sel: &Selection, name: &str) -> Option<Choice> {
    sel.choice(index(g, name))
}

fn select_from(g: &ValueGraph, root: &str, cat: &Vec<Tile>) -> Result<Selection, SelectError> {
    select(g, index(g, root), cat)
}

#[test]
fn fused_tile_covers_mul_add() {
    let g = build(&["a", "b", "c"], &mul_add_program());
    let cat = fused_catalog();
    let sel = select_from(&g, "t1", &cat).expect("selection succeeds");
    assert_eq!(choice_of(&g, &sel, "t1"), Some(Choice { tile: 0, loc: Loc::Dsp, cost: 1 }));
    assert_eq!(choice_of(&g, &sel, "t0"), Some(Choice { tile: 2, loc: Loc::Dsp, cost: 1 }));
    for leaf in ["a", "b", "c"] {
        assert_eq!(choice_of(&g, &sel, leaf), Some(Choice { tile: 3, loc: Loc::Gen, cost: 0 }));
    }
}

#[test]
fn plain_add_charges_its_operands() {
    let g = build(&["a", "b", "c"], &mul_add_program());
    let cat = base_catalog();
    let sel = select_from(&g, "t1", &cat).expect("selection succeeds");
    assert_eq!(choice_of(&g, &sel, "t1"), Some(Choice { tile: 0, loc: Loc::Lut, cost: 4 }));
    assert_eq!(choice_of(&g, &sel, "t0"), Some(Choice { tile: 1, loc: Loc::Dsp, cost: 1 }));
}

#[test]
fn undefined_operand_is_a_reference_error() {
    let program = vec![Instruction::new(Opcode::Add, "t1", "x", "c")];
    match ValueGraph::build(&names(&["c"]), &program) {
        Err(BuildError::Reference(name)) => assert_eq!(name, "x"),
        other => panic!("expected a reference error, got {:?}", other.err()),
    }
}

#[test]
fn right_operand_checked_after_left() {
    let program = vec![Instruction::new(Opcode::Add, "t1", "c", "y")];
    match ValueGraph::build(&names(&["c"]), &program) {
        Err(BuildError::Reference(name)) => assert_eq!(name, "y"),
        other => panic!("expected a reference error, got {:?}", other.err()),
    }
}

#[test]
fn error_comes_from_first_faulty_instruction() {
    let program = vec![
        Instruction::new(Opcode::Add, "t0", "a", "b"),
        Instruction::new(Opcode::Add, "t1", "q", "b"),
        Instruction::new(Opcode::Add, "t2", "r", "b"),
    ];
    match ValueGraph::build(&names(&["a", "b"]), &program) {
        Err(BuildError::Reference(name)) => assert_eq!(name, "q"),
        other => panic!("expected a reference error, got {:?}", other.err()),
    }
}

#[test]
fn rebinding_a_destination_is_rejected() {
    let program = vec![
        Instruction::new(Opcode::Add, "t0", "a", "b"),
        Instruction::new(Opcode::Mul, "t0", "a", "b"),
    ];
    match ValueGraph::build(&names(&["a", "b"]), &program) {
        Err(BuildError::Rebind(name)) => assert_eq!(name, "t0"),
        other => panic!("expected a rebind error, got {:?}", other.err()),
    }
}

#[test]
fn rebinding_an_input_is_rejected() {
    let program = vec![Instruction::new(Opcode::Add, "a", "a", "b")];
    match ValueGraph::build(&names(&["a", "b"]), &program) {
        Err(BuildError::Rebind(name)) => assert_eq!(name, "a"),
        other => panic!("expected a rebind error, got {:?}", other.err()),
    }
}

#[test]
fn uncovered_opcode_is_a_no_cover_error() {
    let program = vec![Instruction::new(Opcode::Reg, "t1", "a", "b")];
    let g = build(&["a", "b"], &program);
    match select_from(&g, "t1", &base_catalog()) {
        Err(SelectError::NoCover(name)) => assert_eq!(name, "t1"),
        Err(e) => panic!("expected a no-cover error, got {:?}", e),
        Ok(_) => panic!("expected a no-cover error"),
    }
}

#[test]
fn leaf_without_identity_tile_is_a_no_cover_error() {
    let g = build(&["a", "b", "c"], &mul_add_program());
    let cat = vec![
        Tile::new(Pattern::new(Opcode::Add), Loc::Lut, 3),
        Tile::new(Pattern::new(Opcode::Mul), Loc::Dsp, 1),
    ];
    match select_from(&g, "t1", &cat) {
        Err(SelectError::NoCover(name)) => assert_eq!(name, "a"),
        Err(e) => panic!("expected a no-cover error, got {:?}", e),
        Ok(_) => panic!("expected a no-cover error"),
    }
}

#[test]
fn cost_overflow_is_reported() {
    let program = vec![
        Instruction::new(Opcode::Add, "t0", "a", "a"),
        Instruction::new(Opcode::Add, "t1", "t0", "t0"),
    ];
    let g = build(&["a"], &program);
    let cat = vec![
        Tile::new(Pattern::new(Opcode::Add), Loc::Lut, u128::MAX / 2 + 1),
        Tile::new(Pattern::new(Opcode::Ref), Loc::Gen, 0),
    ];
    match select_from(&g, "t1", &cat) {
        Err(SelectError::CostOverflow(name)) => assert_eq!(name, "t1"),
        Err(e) => panic!("expected an overflow error, got {:?}", e),
        Ok(_) => panic!("expected an overflow error"),
    }
}

#[test]
fn selecting_twice_gives_the_same_choices() {
    let g = build(&["a", "b", "c"], &mul_add_program());
    let cat = fused_catalog();
    let first = select_from(&g, "t1", &cat).expect("selection succeeds");
    let second = select_from(&g, "t1", &cat).expect("selection succeeds");
    assert_eq!(first.choices, second.choices);
}

#[test]
fn every_reached_node_is_annotated() {
    let g = build(&["a", "b", "c"], &mul_add_program());
    let sel = select_from(&g, "t1", &base_catalog()).expect("selection succeeds");
    assert_eq!(sel.choices.len(), g.node_count());
    assert!(sel.choices.iter().all(|c| c.is_some()));
}

#[test]
fn unreached_nodes_stay_unannotated() {
    let g = build(&["a", "b", "c"], &mul_add_program());
    let sel = select_from(&g, "t0", &base_catalog()).expect("selection succeeds");
    assert_eq!(choice_of(&g, &sel, "t1"), None);
    assert_eq!(choice_of(&g, &sel, "c"), None);
    assert_eq!(choice_of(&g, &sel, "t0"), Some(Choice { tile: 1, loc: Loc::Dsp, cost: 1 }));
}

#[test]
fn annotated_cost_is_at_least_tile_cost() {
    let g = build(&["a", "b", "c"], &mul_add_program());
    for cat in [fused_catalog(), base_catalog()] {
        let sel = select_from(&g, "t1", &cat).expect("selection succeeds");
        for c in sel.choices.iter().flatten() {
            assert!(c.cost >= cat[c.tile].cost);
        }
    }
}

#[test]
fn shared_operand_has_one_annotation() {
    // t0 is read by both t1 and t2, and t3 reads both of them.
    let program = vec![
        Instruction::new(Opcode::Mul, "t0", "a", "b"),
        Instruction::new(Opcode::Add, "t1", "t0", "c"),
        Instruction::new(Opcode::Add, "t2", "c", "t0"),
        Instruction::new(Opcode::Add, "t3", "t1", "t2"),
    ];
    let g = build(&["a", "b", "c"], &program);
    let cat = base_catalog();
    let from_t1 = select_from(&g, "t1", &cat).expect("selection succeeds");
    let from_t2 = select_from(&g, "t2", &cat).expect("selection succeeds");
    let from_t3 = select_from(&g, "t3", &cat).expect("selection succeeds");
    let expected = Some(Choice { tile: 1, loc: Loc::Dsp, cost: 1 });
    assert_eq!(choice_of(&g, &from_t1, "t0"), expected);
    assert_eq!(choice_of(&g, &from_t2, "t0"), expected);
    assert_eq!(choice_of(&g, &from_t3, "t0"), expected);
    // t1 and t2 cost 3 + 1 + 0 each; t3 costs 3 + 4 + 4: t0 is charged once per reader.
    assert_eq!(choice_of(&g, &from_t3, "t3"), Some(Choice { tile: 0, loc: Loc::Lut, cost: 11 }));
}

#[test]
fn shared_leaf_is_one_node() {
    let program = vec![Instruction::new(Opcode::Add, "t0", "a", "a")];
    let g = build(&["a"], &program);
    assert_eq!(g.node_count(), 2);
    let t0 = index(&g, "t0");
    let a = index(&g, "a");
    assert_eq!(g.operands(t0), (a, a));
}

#[test]
fn wildcard_pattern_matches_every_opcode() {
    let program = vec![
        Instruction::new(Opcode::Mul, "t0", "a", "b"),
        Instruction::new(Opcode::Add, "t1", "t0", "c"),
        Instruction::new(Opcode::Reg, "t2", "t1", "t1"),
    ];
    let g = build(&["a", "b", "c"], &program);
    let any = Pattern::new(Opcode::Any);
    let add = Pattern::new(Opcode::Add);
    for name in ["a", "b", "c", "t0", "t1", "t2"] {
        let i = index(&g, name);
        assert!(any.matches(&g, i));
        assert_eq!(add.matches(&g, i), name == "t1");
    }
}

#[test]
fn opcode_equality_treats_any_as_wildcard() {
    assert!(Opcode::Any == Opcode::Mul);
    assert!(Opcode::Ref == Opcode::Any);
    assert!(Opcode::Add == Opcode::Add);
    assert!(Opcode::Add != Opcode::Mul);
    assert!(Opcode::Reg != Opcode::Ref);
}

#[test]
fn operand_template_constrains_operand() {
    let g = build(&["a", "b", "c"], &mul_add_program());
    let t1 = index(&g, "t1");
    let fused = Pattern::with_operands(Opcode::Add, Some(Pattern::new(Opcode::Mul)), None);
    let wrong = Pattern::with_operands(Opcode::Add, None, Some(Pattern::new(Opcode::Mul)));
    let too_deep = Pattern::with_operands(Opcode::Add, None, Some(Pattern::with_operands(
        Opcode::Ref,
        Some(Pattern::new(Opcode::Any)),
        None,
    )));
    assert!(fused.matches(&g, t1));
    assert!(!wrong.matches(&g, t1));
    assert!(!too_deep.matches(&g, t1));
}

#[test]
fn earlier_tile_wins_a_tie() {
    let g = build(&["a", "b", "c"], &mul_add_program());
    let cat = vec![
        Tile::new(Pattern::new(Opcode::Add), Loc::Lut, 2),
        Tile::new(Pattern::new(Opcode::Any), Loc::Gen, 2),
        Tile::new(Pattern::new(Opcode::Mul), Loc::Dsp, 1),
        Tile::new(Pattern::new(Opcode::Ref), Loc::Gen, 0),
    ];
    let sel = select_from(&g, "t1", &cat).expect("selection succeeds");
    assert_eq!(choice_of(&g, &sel, "t1"), Some(Choice { tile: 0, loc: Loc::Lut, cost: 3 }));
    assert_eq!(choice_of(&g, &sel, "t0"), Some(Choice { tile: 2, loc: Loc::Dsp, cost: 1 }));
}

#[test]
fn cheaper_later_tile_wins() {
    let g = build(&["a", "b", "c"], &mul_add_program());
    let mut cat = base_catalog();
    cat.push(Tile::new(Pattern::new(Opcode::Add), Loc::Dsp, 1));
    let sel = select_from(&g, "t1", &cat).expect("selection succeeds");
    assert_eq!(choice_of(&g, &sel, "t1"), Some(Choice { tile: 3, loc: Loc::Dsp, cost: 2 }));
}

#[test]
fn graph_records_instructions() {
    let g = build(&["a", "b", "c"], &mul_add_program());
    assert_eq!(g.node_count(), 5);
    let t1 = index(&g, "t1");
    let (l, r) = g.operands(t1);
    assert_eq!(g.node(l).name(), "t0");
    assert_eq!(g.node(r).name(), "c");
    assert_eq!(*g.node(t1).opcode(), Opcode::Add);
    assert!(matches!(g.node(index(&g, "a")).opcode, Opcode::Ref));
    assert_eq!(g.node(t1).loc, Loc::Gen);
    assert!(g.find(&"zz".to_string()).is_none());
}

#[test]
fn unused_inputs_get_no_node() {
    let g = build(&["a", "b", "c", "d"], &mul_add_program());
    assert!(g.find(&"d".to_string()).is_none());
    assert_eq!(g.node_count(), 5);
}

#[test]
fn resource_unit_costs() {
    assert_eq!(Loc::Gen.unit_cost(), 3);
    assert_eq!(Loc::Lut.unit_cost(), 2);
    assert_eq!(Loc::Dsp.unit_cost(), 1);
}
