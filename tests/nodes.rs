use petsel::graph::Node;
use petsel::opcode::{Loc, Opcode};
use petsel::tree::Node as TreeNode;

#[test]
fn value_node_constructors() {
    let r = Node::new_gen_ref("a");
    assert_eq!(r.name(), "a");
    assert!(matches!(r.opcode(), Opcode::Ref));
    assert_eq!(r.loc, Loc::Gen);
    let add = Node::new_gen_add("t1");
    assert!(matches!(add.opcode(), Opcode::Add));
    assert_eq!(add.loc, Loc::Gen);
    let mul = Node::new_gen_mul("t0");
    assert!(matches!(mul.opcode(), Opcode::Mul));
    assert_eq!(mul.loc, Loc::Gen);
    let dsp = Node::new_dsp_mul("t2");
    assert!(matches!(dsp.opcode(), Opcode::Mul));
    assert_eq!(dsp.loc, Loc::Dsp);
    let n = Node::new("x", Opcode::Reg, Loc::Lut);
    assert_eq!(n.name(), "x");
    assert!(matches!(n.opcode(), Opcode::Reg));
    assert_eq!(n.loc, Loc::Lut);
}

#[test]
fn tree_node_attributes() {
    let mut n = TreeNode::new_with_attrs(&Opcode::Add, 8, &Loc::Lut, 4);
    assert!(!n.was_visited());
    assert_eq!(n.width, 8);
    assert_eq!(n.cost, 4);
    n.change_cost(7).change_cost(9);
    assert_eq!(n.cost, 9);
    assert!(matches!(n.opcode, Opcode::Add));
    assert_eq!(n.loc, Loc::Lut);
}

#[test]
fn shallow_shape_equality() {
    let input = TreeNode::new_with_attrs(&Opcode::Ref, 8, &Loc::Gen, 0);
    let mut lut_add = TreeNode::new_with_attrs(&Opcode::Add, 8, &Loc::Lut, 4);
    let mut dsp_add = TreeNode::new_with_attrs(&Opcode::Add, 8, &Loc::Dsp, 1);
    dsp_add.push_operand(&input).push_operand(&input);
    lut_add.push_operand(&input);
    assert!(dsp_add != lut_add);
    lut_add.push_operand(&input);
    // Placement and cost do not take part.
    assert!(dsp_add == lut_add);
    let wide = TreeNode::new_with_attrs(&Opcode::Ref, 16, &Loc::Gen, 0);
    let mut other = TreeNode::new_with_attrs(&Opcode::Add, 8, &Loc::Lut, 4);
    other.push_operand(&input).push_operand(&wide);
    assert!(dsp_add != other);
    let pattern = TreeNode::new_with_attrs(&Opcode::Any, 8, &Loc::Gen, 0);
    assert!(pattern == input);
}

#[test]
fn postorder_puts_operands_first() {
    let a = TreeNode::new_with_attrs(&Opcode::Ref, 8, &Loc::Gen, 0);
    let b = TreeNode::new_with_attrs(&Opcode::Ref, 8, &Loc::Gen, 1);
    let c = TreeNode::new_with_attrs(&Opcode::Ref, 8, &Loc::Gen, 2);
    let mut t0 = TreeNode::new_with_attrs(&Opcode::Mul, 8, &Loc::Dsp, 3);
    t0.push_operand(&a).push_operand(&b);
    let mut t1 = TreeNode::new_with_attrs(&Opcode::Add, 8, &Loc::Lut, 4);
    t1.push_operand(&t0).push_operand(&c);
    let walk: Vec<u128> = t1.postorder().iter().map(|n| n.cost).collect();
    assert_eq!(walk, vec![0, 1, 3, 2, 4]);
}

#[test]
fn postorder_repeats_shared_subtrees() {
    let a = TreeNode::new_with_attrs(&Opcode::Ref, 8, &Loc::Gen, 0);
    let mut t0 = TreeNode::new_with_attrs(&Opcode::Mul, 8, &Loc::Dsp, 1);
    t0.push_operand(&a).push_operand(&a);
    let mut t1 = TreeNode::new_with_attrs(&Opcode::Add, 8, &Loc::Lut, 2);
    t1.push_operand(&t0).push_operand(&t0);
    let walk: Vec<u128> = t1.postorder().iter().map(|n| n.cost).collect();
    assert_eq!(walk, vec![0, 0, 1, 0, 0, 1, 2]);
    let single = TreeNode::new_with_attrs(&Opcode::Ref, 8, &Loc::Gen, 5);
    assert_eq!(single.postorder().len(), 1);
}
