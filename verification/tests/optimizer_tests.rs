use garbled_circuit::error::ProtocolError;
use garbled_circuit::evaluator::Evaluator;
use garbled_circuit::garbler::Garbler;
use garbled_circuit::optim::{build_expr, lift_outputs, lower_outputs, may_read, optimize};
use garbled_circuit::optimizer::{cheaper_of, circuit_rules, operand_count, Expr, Node};
use garbled_circuit::protocol::select_labels;
use garbled_circuit::utils::{generate_keys, wire_values, Circuit, GateType};
use std::collections::BTreeMap;

fn truth(kind: GateType, a: bool, b: bool) -> bool {
    match kind {
        GateType::AND => a && b,
        GateType::OR => a || b,
        GateType::XOR => a != b,
        GateType::NAND => !(a && b),
        GateType::NOR => !(a || b),
        GateType::XNOR => a == b,
        GateType::ANDNOT => a && !b,
        GateType::ORNOT => a || !b,
        GateType::NOT => !a,
        GateType::CONST => a,
        GateType::CONST_0 => false,
        GateType::CONST_1 => true,
        GateType::INPUT => a,
    }
}

/// the bit of an expression when wire `w` has bit `w` of `assignment`
fn value(e: &Expr, assignment: u64) -> bool {
    let mut bits: Vec<bool> = Vec::new();
    for node in e.nodes.iter() {
        let bit = match *node {
            Node::Wire(w) => (assignment >> w) & 1 == 1,
            Node::Gate(kind, a, b) => {
                let x = if operand_count(kind) >= 1 { bits[a] } else { false };
                let y = if operand_count(kind) >= 2 { bits[b] } else { false };
                truth(kind, x, y)
            }
        };
        bits.push(bit);
    }
    *bits.last().unwrap()
}

/// the bit of a wire of a netlist when input wire `w` has bit `w` of
/// `assignment`
fn wire_bit(c: &Circuit, w: u64, assignment: u64) -> bool {
    match c.get(&w) {
        None => (assignment >> w) & 1 == 1,
        Some((GateType::INPUT, _)) => (assignment >> w) & 1 == 1,
        Some((kind, inputs)) => {
            let x = if !inputs.is_empty() { wire_bit(c, inputs[0], assignment) } else { false };
            let y = if inputs.len() >= 2 { wire_bit(c, inputs[1], assignment) } else { false };
            truth(*kind, x, y)
        }
    }
}

fn expr(nodes: Vec<Node>) -> Expr {
    Expr { nodes }
}

/// a full adder on the input wires 0, 1, 2: wire 6 is the sum, wire 9 the
/// carry
fn full_adder() -> Circuit {
    let mut c: Circuit = BTreeMap::new();
    for w in 0..3u64 {
        c.insert(w, (GateType::INPUT, vec![]));
    }
    c.insert(5, (GateType::XOR, vec![0, 1]));
    c.insert(6, (GateType::XOR, vec![5, 2]));
    c.insert(7, (GateType::AND, vec![0, 1]));
    c.insert(8, (GateType::AND, vec![5, 2]));
    c.insert(9, (GateType::OR, vec![7, 8]));
    c
}

#[test]
fn builder_numbers_nodes_in_order() {
    let mut e = Expr::empty();
    let a = e.wire(7);
    let b = e.wire(8);
    let x = e.gate(GateType::XOR, a, b);
    assert_eq!((a, b, x), (0, 1, 2));
    assert_eq!(
        e.nodes,
        vec![Node::Wire(7), Node::Wire(8), Node::Gate(GateType::XOR, 0, 1)]
    );
    assert!(e.is_wf());
}

#[test]
fn is_wf_wants_operands_before_the_gate() {
    assert!(!expr(vec![]).is_wf());
    assert!(expr(vec![Node::Wire(3)]).is_wf());
    assert!(expr(vec![Node::Gate(GateType::CONST_1, 5, 5)]).is_wf());
    assert!(!expr(vec![Node::Gate(GateType::NOT, 0, 0)]).is_wf());
    assert!(expr(vec![Node::Wire(1), Node::Gate(GateType::NOT, 0, 9)]).is_wf());
    assert!(!expr(vec![Node::Wire(1), Node::Gate(GateType::AND, 0, 1)]).is_wf());
    assert!(!expr(vec![Node::Wire(1), Node::Gate(GateType::INPUT, 0, 0)]).is_wf());
    assert!(!expr(vec![Node::Wire(1), Node::Gate(GateType::CONST, 0, 0)]).is_wf());
}

#[test]
fn operand_counts() {
    assert_eq!(operand_count(GateType::INPUT), 0);
    assert_eq!(operand_count(GateType::CONST_0), 0);
    assert_eq!(operand_count(GateType::CONST_1), 0);
    assert_eq!(operand_count(GateType::CONST), 1);
    assert_eq!(operand_count(GateType::NOT), 1);
    assert_eq!(operand_count(GateType::AND), 2);
    assert_eq!(operand_count(GateType::XNOR), 2);
}

#[test]
fn cost_weighs_xor_one_not_two_others_four() {
    let wire = expr(vec![Node::Wire(0)]);
    assert_eq!(wire.cost(), Some(4));
    let not = expr(vec![Node::Wire(0), Node::Gate(GateType::NOT, 0, 0)]);
    assert_eq!(not.cost(), Some(6));
    let xor = expr(vec![Node::Wire(0), Node::Wire(1), Node::Gate(GateType::XOR, 0, 1)]);
    assert_eq!(xor.cost(), Some(9));
    let and = expr(vec![Node::Wire(0), Node::Wire(1), Node::Gate(GateType::AND, 0, 1)]);
    assert_eq!(and.cost(), Some(12));
    let one = expr(vec![Node::Gate(GateType::CONST_1, 0, 0)]);
    assert_eq!(one.cost(), Some(4));
    assert_eq!(expr(vec![]).cost(), Some(0));
}

#[test]
fn cost_counts_a_shared_node_twice() {
    // (and (xor a b) (xor a b)) with one node for the xor
    let e = expr(vec![
        Node::Wire(0),
        Node::Wire(1),
        Node::Gate(GateType::XOR, 0, 1),
        Node::Gate(GateType::AND, 2, 2),
    ]);
    assert_eq!(e.cost(), Some(4 + 9 + 9));
}

#[test]
fn cost_that_does_not_fit_is_none() {
    let mut nodes = vec![Node::Wire(0)];
    for i in 0..70 {
        nodes.push(Node::Gate(GateType::AND, i, i));
    }
    assert_eq!(expr(nodes).cost(), None);
}

#[test]
fn cheaper_of_keeps_the_cheaper() {
    let costly = || expr(vec![Node::Wire(0), Node::Wire(1), Node::Gate(GateType::AND, 0, 1)]);
    let cheap = || expr(vec![Node::Wire(0), Node::Wire(1), Node::Gate(GateType::XOR, 0, 1)]);
    assert_eq!(cheaper_of(costly(), cheap()).nodes, cheap().nodes);
    assert_eq!(cheaper_of(cheap(), costly()).nodes, cheap().nodes);
    // what is not an expression never wins
    let broken = expr(vec![Node::Gate(GateType::XOR, 3, 4)]);
    assert_eq!(cheaper_of(costly(), broken).nodes, costly().nodes);
    let r = cheaper_of(costly(), cheap());
    assert!(r.cost().unwrap() <= costly().cost().unwrap());
}

#[test]
fn rules_keep_the_truth_table() {
    let rules = circuit_rules();
    assert_eq!(rules.len(), 33);
    for rule in rules.iter() {
        assert!(rule.lhs.is_wf());
        assert!(rule.rhs.is_wf());
        for assignment in 0..8u64 {
            assert_eq!(value(&rule.lhs, assignment), value(&rule.rhs, assignment));
        }
    }
}

#[test]
fn rules_have_their_names() {
    let rules = circuit_rules();
    assert_eq!(rules[0].name, "simplify-and");
    assert_eq!(
        rules[0].lhs.nodes,
        vec![Node::Wire(0), Node::Wire(0), Node::Gate(GateType::AND, 0, 1)]
    );
    assert_eq!(rules[0].rhs.nodes, vec![Node::Wire(0)]);
    assert!(rules.iter().any(|r| r.name == "xor_conv"));
    assert!(rules.iter().any(|r| r.name == "not-to-xor"));
    let mut names: Vec<&String> = rules.iter().map(|r| &r.name).collect();
    names.sort();
    names.dedup();
    assert_eq!(names.len(), 33);
}

#[test]
fn build_expr_of_full_adder_sum() {
    let c = full_adder();
    let e = build_expr(&c, 6).unwrap();
    assert!(e.is_wf());
    assert_eq!(
        e.nodes,
        vec![
            Node::Wire(0),
            Node::Wire(1),
            Node::Wire(2),
            Node::Gate(GateType::XOR, 0, 1),
            Node::Gate(GateType::XOR, 3, 2),
        ]
    );
}

#[test]
fn build_expr_agrees_with_the_netlist() {
    let c = full_adder();
    for w in [5u64, 6, 7, 8, 9, 0] {
        let e = build_expr(&c, w).unwrap();
        for assignment in 0..8u64 {
            assert_eq!(value(&e, assignment), wire_bit(&c, w, assignment));
        }
    }
}

#[test]
fn build_expr_has_one_node_for_a_shared_wire() {
    let c = full_adder();
    let e = build_expr(&c, 9).unwrap();
    let xors = e
        .nodes
        .iter()
        .filter(|n| matches!(n, Node::Gate(GateType::XOR, _, _)))
        .count();
    assert_eq!(xors, 1);
    let leaves = e.nodes.iter().filter(|n| matches!(n, Node::Wire(_))).count();
    assert_eq!(leaves, 3);
}

#[test]
fn build_expr_of_passing_and_constant_gates() {
    let mut c: Circuit = BTreeMap::new();
    c.insert(0, (GateType::INPUT, vec![]));
    c.insert(1, (GateType::CONST, vec![0]));
    c.insert(2, (GateType::NOT, vec![1]));
    c.insert(3, (GateType::CONST_1, vec![0]));
    c.insert(4, (GateType::AND, vec![2, 3]));
    assert_eq!(build_expr(&c, 1).unwrap().nodes, vec![Node::Wire(0)]);
    let e = build_expr(&c, 4).unwrap();
    for assignment in 0..2u64 {
        assert_eq!(value(&e, assignment), assignment == 0);
    }
    let one = build_expr(&c, 3).unwrap();
    assert_eq!(one.nodes, vec![Node::Gate(GateType::CONST_1, 0, 0)]);
}

#[test]
fn build_expr_of_a_wire_the_netlist_does_not_know() {
    let c = full_adder();
    assert_eq!(build_expr(&c, 77).unwrap().nodes, vec![Node::Wire(77)]);
}

#[test]
fn build_expr_reports_cycle_and_arity() {
    let mut c: Circuit = BTreeMap::new();
    c.insert(1, (GateType::NOT, vec![2]));
    c.insert(2, (GateType::NOT, vec![1]));
    assert!(matches!(build_expr(&c, 1), Err(ProtocolError::CycleDetected)));
    let mut c: Circuit = BTreeMap::new();
    c.insert(0, (GateType::INPUT, vec![]));
    c.insert(1, (GateType::XOR, vec![0]));
    assert!(matches!(build_expr(&c, 1), Err(ProtocolError::ArityMismatch)));
    assert!(matches!(build_expr(&c, 0), Err(ProtocolError::ArityMismatch)));
}

#[test]
fn lift_outputs_lifts_each_output() {
    let c = full_adder();
    let exprs = lift_outputs(&c, &vec![6, 9]).unwrap();
    assert_eq!(exprs.len(), 2);
    for assignment in 0..8u64 {
        assert_eq!(value(&exprs[0], assignment), wire_bit(&c, 6, assignment));
        assert_eq!(value(&exprs[1], assignment), wire_bit(&c, 9, assignment));
    }
    assert_eq!(lift_outputs(&c, &vec![]).unwrap().len(), 0);
}

#[test]
fn lowering_keeps_the_outputs() {
    let c = full_adder();
    let outputs = vec![6u64, 9];
    let exprs = lift_outputs(&c, &outputs).unwrap();
    let d = lower_outputs(&exprs, &outputs).unwrap();
    for assignment in 0..8u64 {
        for w in outputs.iter() {
            assert_eq!(wire_bit(&d, *w, assignment), wire_bit(&c, *w, assignment));
        }
    }
    for w in 0..3u64 {
        assert_eq!(d[&w], (GateType::INPUT, vec![]));
    }
}

#[test]
fn lowering_shares_equal_gates() {
    let c = full_adder();
    let outputs = vec![6u64, 9];
    let exprs = lift_outputs(&c, &outputs).unwrap();
    let d = lower_outputs(&exprs, &outputs).unwrap();
    // three inputs, the two outputs, and xor(0, 1), and(0, 1), and(xor, 2)
    assert_eq!(d.len(), 8);
    let xors: Vec<&u64> = d
        .iter()
        .filter(|(_, g)| g.0 == GateType::XOR && g.1 == vec![0, 1])
        .map(|(w, _)| w)
        .collect();
    assert_eq!(xors.len(), 1);
    // new wires are numbered from above every output and leaf
    assert_eq!(*xors[0], 10);
    assert_eq!(d[&6], (GateType::XOR, vec![10, 2]));
}

#[test]
fn lowering_a_single_wire() {
    // an output that is an input wire stays an input wire
    let d = lower_outputs(&vec![expr(vec![Node::Wire(4)])], &vec![4]).unwrap();
    assert_eq!(d.len(), 1);
    assert_eq!(d[&4], (GateType::INPUT, vec![]));
    // an output that is another wire passes that wire on
    let d = lower_outputs(&vec![expr(vec![Node::Wire(4)])], &vec![5]).unwrap();
    assert_eq!(d.len(), 2);
    assert_eq!(d[&4], (GateType::INPUT, vec![]));
    assert_eq!(d[&5], (GateType::CONST, vec![4]));
}

#[test]
fn lowering_constants_and_not() {
    let e = expr(vec![
        Node::Wire(0),
        Node::Gate(GateType::NOT, 0, 0),
        Node::Gate(GateType::CONST_1, 0, 0),
        Node::Gate(GateType::XOR, 1, 2),
    ]);
    let d = lower_outputs(&vec![e], &vec![3]).unwrap();
    assert_eq!(d[&4], (GateType::NOT, vec![0]));
    assert_eq!(d[&5], (GateType::CONST_1, vec![]));
    assert_eq!(d[&3], (GateType::XOR, vec![4, 5]));
    for assignment in 0..2u64 {
        assert_eq!(wire_bit(&d, 3, assignment), assignment == 1);
    }
}

#[test]
fn lowering_takes_the_first_of_a_repeated_output() {
    let first = expr(vec![Node::Wire(0), Node::Gate(GateType::NOT, 0, 0)]);
    let second = expr(vec![Node::Wire(1), Node::Wire(2), Node::Gate(GateType::AND, 0, 1)]);
    let d = lower_outputs(&vec![first, second], &vec![9, 9]).unwrap();
    assert_eq!(d[&9], (GateType::NOT, vec![0]));
    assert_eq!(d.len(), 2);
}

#[test]
fn lowering_reports_what_is_wrong() {
    let wire = || expr(vec![Node::Wire(0)]);
    assert!(matches!(
        lower_outputs(&vec![wire()], &vec![1, 2]),
        Err(ProtocolError::ArityMismatch)
    ));
    assert!(matches!(
        lower_outputs(&vec![expr(vec![Node::Gate(GateType::AND, 0, 0)])], &vec![1]),
        Err(ProtocolError::ArityMismatch)
    ));
    // output 0 is driven by a gate and read as a leaf
    let feedback = expr(vec![Node::Wire(0), Node::Gate(GateType::NOT, 0, 0)]);
    assert!(matches!(
        lower_outputs(&vec![feedback], &vec![0]),
        Err(ProtocolError::CycleDetected)
    ));
    let a = expr(vec![Node::Wire(2), Node::Gate(GateType::NOT, 0, 0)]);
    let b = expr(vec![Node::Wire(1), Node::Gate(GateType::NOT, 0, 0)]);
    assert!(matches!(
        lower_outputs(&vec![a, b], &vec![1, 2]),
        Err(ProtocolError::CycleDetected)
    ));
    // no number is left for the new wire
    let full = expr(vec![
        Node::Wire(u64::MAX - 1),
        Node::Gate(GateType::NOT, 0, 0),
        Node::Gate(GateType::NOT, 1, 1),
    ]);
    assert!(matches!(
        lower_outputs(&vec![full], &vec![3]),
        Err(ProtocolError::UnknownWire)
    ));
    assert_eq!(lower_outputs(&vec![], &vec![]).unwrap().len(), 0);
}

#[test]
fn lowered_netlist_can_be_garbled_and_evaluated() {
    let c = full_adder();
    let outputs = vec![6u64, 9];
    let exprs = lift_outputs(&c, &outputs).unwrap();
    let d = lower_outputs(&exprs, &outputs).unwrap();
    let delta = generate_keys(&String::from("AAAAAAAAAAAAAAAAAAAAAAAAAAAAAAAAAAAAAAAAAAA="))
        .unwrap()
        .0;
    let ins = vec![(String::from("a"), vec![0u64, 1, 2])];
    let outs = vec![(String::from("out"), outputs.clone())];
    let mut g = Garbler::new(delta, d.clone(), ins, outs).unwrap();
    let (keys, gates) = g.build().unwrap();
    for assignment in 0..8u64 {
        let labels = select_labels(&keys, &wire_values(&vec![0, 1, 2], assignment)).unwrap();
        let mut e = Evaluator::new(d.clone(), outputs.clone(), keys.clone(), gates.clone());
        let bits = e.run(vec![labels]).unwrap();
        assert_eq!(bits[&6], wire_bit(&c, 6, assignment));
        assert_eq!(bits[&9], wire_bit(&c, 9, assignment));
    }
}

#[test]
fn lowering_makes_one_gate_for_each_node() {
    // (andnot (ornot a b) (nor a b)) on wire 2, with a = 0 and b = 1
    let e = expr(vec![
        Node::Wire(0),
        Node::Wire(1),
        Node::Gate(GateType::ORNOT, 0, 1),
        Node::Wire(0),
        Node::Wire(1),
        Node::Gate(GateType::NOR, 3, 4),
        Node::Gate(GateType::ANDNOT, 2, 5),
    ]);
    let d = lower_outputs(&vec![e], &vec![2]).unwrap();
    let mut expected: Circuit = BTreeMap::new();
    expected.insert(0, (GateType::INPUT, vec![]));
    expected.insert(1, (GateType::INPUT, vec![]));
    expected.insert(3, (GateType::ORNOT, vec![0, 1]));
    expected.insert(4, (GateType::NOR, vec![0, 1]));
    expected.insert(2, (GateType::ANDNOT, vec![3, 4]));
    assert_eq!(d, expected);
}

#[test]
fn lowering_shares_across_outputs() {
    // (and (or a b) c) on wire 3 and (xor (or a b) c) on wire 4
    let over = |kind: GateType| {
        expr(vec![
            Node::Wire(0),
            Node::Wire(1),
            Node::Gate(GateType::OR, 0, 1),
            Node::Wire(2),
            Node::Gate(kind, 2, 3),
        ])
    };
    let first = lower_outputs(&vec![over(GateType::AND)], &vec![3]).unwrap();
    let d = lower_outputs(&vec![over(GateType::AND), over(GateType::XOR)], &vec![3, 4]).unwrap();
    let mut expected: Circuit = BTreeMap::new();
    for w in 0..3u64 {
        expected.insert(w, (GateType::INPUT, vec![]));
    }
    expected.insert(5, (GateType::OR, vec![0, 1]));
    expected.insert(3, (GateType::AND, vec![5, 2]));
    expected.insert(4, (GateType::XOR, vec![5, 2]));
    assert_eq!(d, expected);
    // the second expression adds one gate and no new wire
    assert_eq!(first.len() + 1, d.len());
    assert_eq!(first[&3], (GateType::AND, vec![4, 2]));
}

#[test]
fn lowering_takes_the_first_of_a_wire_listed_twice() {
    let a = expr(vec![Node::Wire(0), Node::Gate(GateType::NOT, 0, 0)]);
    let b = expr(vec![Node::Wire(1), Node::Gate(GateType::NOT, 0, 0)]);
    let d = lower_outputs(&vec![a, b], &vec![2, 2]).unwrap();
    let mut expected: Circuit = BTreeMap::new();
    expected.insert(0, (GateType::INPUT, vec![]));
    expected.insert(2, (GateType::NOT, vec![0]));
    assert_eq!(d, expected);
}

#[test]
fn optimize_turns_a_bare_wire_into_a_passing_gate() {
    let mut c: Circuit = BTreeMap::new();
    c.insert(0, (GateType::INPUT, vec![]));
    c.insert(1, (GateType::AND, vec![0, 0]));
    let to_wire = |_: &Expr| expr(vec![Node::Wire(0)]);
    let d = optimize(c, vec![1], to_wire).unwrap();
    let mut expected: Circuit = BTreeMap::new();
    expected.insert(0, (GateType::INPUT, vec![]));
    expected.insert(1, (GateType::CONST, vec![0]));
    assert_eq!(d, expected);
}

#[test]
fn optimize_gives_a_minimal_cone_back() {
    let mut c: Circuit = BTreeMap::new();
    c.insert(0, (GateType::INPUT, vec![]));
    c.insert(1, (GateType::INPUT, vec![]));
    c.insert(2, (GateType::XOR, vec![0, 1]));
    let d = optimize(c.clone(), vec![2], |e: &Expr| e.clone()).unwrap();
    assert_eq!(d, c);
}

#[test]
fn optimize_keeps_what_costs_less_and_nothing_else() {
    let mut c: Circuit = BTreeMap::new();
    c.insert(0, (GateType::INPUT, vec![]));
    c.insert(1, (GateType::INPUT, vec![]));
    c.insert(2, (GateType::NAND, vec![0, 1]));
    c.insert(3, (GateType::NOT, vec![2]));
    // not(nand(a, b)) costs 14, and(a, b) 12: the candidate is kept
    let cheaper = |_: &Expr| {
        expr(vec![Node::Wire(0), Node::Wire(1), Node::Gate(GateType::AND, 0, 1)])
    };
    let d = optimize(c.clone(), vec![3], cheaper).unwrap();
    let mut expected: Circuit = BTreeMap::new();
    expected.insert(0, (GateType::INPUT, vec![]));
    expected.insert(1, (GateType::INPUT, vec![]));
    expected.insert(3, (GateType::AND, vec![0, 1]));
    assert_eq!(d, expected);
    // a candidate that costs more is dropped, and so is one that is no
    // expression
    let dearer = |e: &Expr| {
        let mut nodes = e.nodes.clone();
        let root = nodes.len() - 1;
        nodes.push(Node::Gate(GateType::NOT, root, root));
        nodes.push(Node::Gate(GateType::NOT, root + 1, root + 1));
        expr(nodes)
    };
    let plain = optimize(c.clone(), vec![3], |e: &Expr| e.clone()).unwrap();
    assert_eq!(optimize(c.clone(), vec![3], dearer).unwrap(), plain);
    let broken = |_: &Expr| expr(vec![Node::Gate(GateType::AND, 3, 4)]);
    assert_eq!(optimize(c.clone(), vec![3], broken).unwrap(), plain);
    let mut expected: Circuit = BTreeMap::new();
    expected.insert(0, (GateType::INPUT, vec![]));
    expected.insert(1, (GateType::INPUT, vec![]));
    expected.insert(4, (GateType::NAND, vec![0, 1]));
    expected.insert(3, (GateType::NOT, vec![4]));
    assert_eq!(plain, expected);
}

#[test]
fn optimize_result_has_every_output_and_fitting_gates() {
    let c = full_adder();
    let outputs = vec![9u64, 6, 9, 0];
    let d = optimize(c, outputs.clone(), |e: &Expr| e.clone()).unwrap();
    for w in outputs.iter() {
        assert!(d.contains_key(w));
    }
    for (_, g) in d.iter() {
        assert_eq!(g.1.len(), operand_count(g.0));
        for v in g.1.iter() {
            assert!(d.contains_key(v));
        }
    }
}

#[test]
fn constants_may_read_nothing_or_one_wire() {
    for kind in [GateType::CONST_0, GateType::CONST_1] {
        assert!(may_read(kind, 0));
        assert!(may_read(kind, 1));
        assert!(!may_read(kind, 2));
    }
    assert!(may_read(GateType::INPUT, 0));
    assert!(!may_read(GateType::INPUT, 1));
    assert!(may_read(GateType::NOT, 1));
    assert!(!may_read(GateType::NOT, 0));
    assert!(may_read(GateType::CONST, 1));
    assert!(!may_read(GateType::CONST, 2));
    assert!(may_read(GateType::XNOR, 2));
    assert!(!may_read(GateType::XNOR, 1));
}

#[test]
fn a_lowered_constant_can_be_lifted_again() {
    let e = expr(vec![
        Node::Wire(0),
        Node::Gate(GateType::CONST_1, 0, 0),
        Node::Gate(GateType::XOR, 0, 1),
    ]);
    let d = lower_outputs(&vec![e.clone()], &vec![3]).unwrap();
    assert_eq!(d[&4], (GateType::CONST_1, vec![]));
    let again = build_expr(&d, 3).unwrap();
    for assignment in 0..2u64 {
        assert_eq!(value(&again, assignment), value(&e, assignment));
    }
    assert_eq!(lower_outputs(&vec![again], &vec![3]).unwrap(), d);
}

#[test]
fn build_expr_lifts_the_cone_in_the_order_of_the_netlist() {
    let c = full_adder();
    assert_eq!(
        build_expr(&c, 6).unwrap().nodes,
        vec![
            Node::Wire(0),
            Node::Wire(1),
            Node::Wire(2),
            Node::Gate(GateType::XOR, 0, 1),
            Node::Gate(GateType::XOR, 3, 2),
        ]
    );
}

#[test]
fn rules_stand_at_their_places() {
    let rules = circuit_rules();
    assert_eq!(rules[0].name, "simplify-and");
    assert_eq!(
        rules[0].lhs.nodes,
        vec![Node::Wire(0), Node::Wire(0), Node::Gate(GateType::AND, 0, 1)]
    );
    assert_eq!(rules[0].rhs.nodes, vec![Node::Wire(0)]);
    assert_eq!(rules[5].name, "nand-to-not");
    assert_eq!(
        rules[5].rhs.nodes,
        vec![Node::Wire(0), Node::Gate(GateType::NOT, 0, 0)]
    );
    assert_eq!(rules[32].name, "ornot-to-or");
    assert_eq!(
        rules[32].lhs.nodes,
        vec![Node::Wire(0), Node::Wire(1), Node::Gate(GateType::ORNOT, 0, 1)]
    );
    let mut names: Vec<&str> = rules.iter().map(|r| r.name.as_str()).collect();
    names.sort();
    names.dedup();
    assert_eq!(names.len(), 33);
}

#[test]
fn optimize_never_raises_the_cost_of_an_output() {
    let c = full_adder();
    let outputs = vec![6u64, 9];
    let before: Vec<u64> = outputs
        .iter()
        .map(|o| build_expr(&c, *o).unwrap().cost().unwrap())
        .collect();
    // sum: two XOR over three wires; carry: OR of two AND, one over an XOR
    assert_eq!(before, vec![1 + (1 + 4 + 4) + 4, 4 + (4 + 4 + 4) + (4 + (1 + 4 + 4) + 4)]);
    let negate_twice = |e: &Expr| {
        let mut nodes = e.nodes.clone();
        let root = nodes.len() - 1;
        nodes.push(Node::Gate(GateType::NOT, root, root));
        nodes.push(Node::Gate(GateType::NOT, root + 1, root + 1));
        expr(nodes)
    };
    let to_wire = |_: &Expr| expr(vec![Node::Wire(0)]);
    let same = |e: &Expr| e.clone();
    for d in [
        optimize(c.clone(), outputs.clone(), same).unwrap(),
        optimize(c.clone(), outputs.clone(), negate_twice).unwrap(),
        optimize(c.clone(), outputs.clone(), to_wire).unwrap(),
    ] {
        for (o, was) in outputs.iter().zip(before.iter()) {
            assert!(build_expr(&d, *o).unwrap().cost().unwrap() <= *was);
        }
    }
    let d = optimize(c.clone(), outputs.clone(), to_wire).unwrap();
    assert_eq!(build_expr(&d, 6).unwrap().cost().unwrap(), 4);
}
