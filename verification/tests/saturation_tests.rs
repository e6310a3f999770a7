use egg::{CostFunction, Extractor, Id, Language, Pattern, RecExpr, Rewrite, Runner, SymbolLang};
use garbled_circuit::optim::{lift_outputs, lower_outputs, optimize};
use garbled_circuit::optimizer::{cheaper_of, circuit_rules, operand_count, Expr, Node};
use garbled_circuit::utils::{Circuit, GateType};
use std::collections::BTreeMap;

struct Weights;

impl CostFunction<SymbolLang> for Weights {
    type Cost = f64;

    fn cost<C>(&mut self, enode: &SymbolLang, mut costs: C) -> f64
    where
        C: FnMut(Id) -> f64,
    {
        let own = match enode.op.as_str() {
            "xor" => 1.0,
            "not" => 2.0,
            _ => 4.0,
        };
        enode.fold(own, |sum, id| sum + costs(id))
    }
}

fn operator(kind: GateType) -> &'static str {
    match kind {
        GateType::AND => "and",
        GateType::NOT => "not",
        GateType::OR => "or",
        GateType::XOR => "xor",
        GateType::ORNOT => "ornot",
        GateType::NOR => "nor",
        GateType::NAND => "nand",
        GateType::ANDNOT => "andnot",
        GateType::XNOR => "xnor",
        GateType::CONST_0 => "zero",
        GateType::CONST_1 => "one",
        GateType::CONST | GateType::INPUT => unreachable!(),
    }
}

fn kind_of(op: &str) -> Option<GateType> {
    for kind in [
        GateType::AND,
        GateType::NOT,
        GateType::OR,
        GateType::XOR,
        GateType::ORNOT,
        GateType::NOR,
        GateType::NAND,
        GateType::ANDNOT,
        GateType::XNOR,
        GateType::CONST_0,
        GateType::CONST_1,
    ] {
        if operator(kind) == op {
            return Some(kind);
        }
    }
    None
}

fn pattern_text(side: &Expr, at: usize) -> String {
    match side.nodes[at] {
        Node::Wire(v) => format!("?v{}", v),
        Node::Gate(kind, a, b) => match operand_count(kind) {
            0 => operator(kind).to_string(),
            1 => format!("({} {})", operator(kind), pattern_text(side, a)),
            _ => format!(
                "({} {} {})",
                operator(kind),
                pattern_text(side, a),
                pattern_text(side, b)
            ),
        },
    }
}

fn rewrites() -> Vec<Rewrite<SymbolLang, ()>> {
    circuit_rules()
        .iter()
        .map(|rule| {
            let lhs: Pattern<SymbolLang> = pattern_text(&rule.lhs, rule.lhs.nodes.len() - 1)
                .parse()
                .unwrap();
            let rhs: Pattern<SymbolLang> = pattern_text(&rule.rhs, rule.rhs.nodes.len() - 1)
                .parse()
                .unwrap();
            Rewrite::new(rule.name.clone(), lhs, rhs).unwrap()
        })
        .collect()
}

fn to_egg(expr: &Expr) -> RecExpr<SymbolLang> {
    let mut out: RecExpr<SymbolLang> = RecExpr::default();
    for node in expr.nodes.iter() {
        match *node {
            Node::Wire(w) => {
                out.add(SymbolLang::leaf(format!("w{}", w)));
            }
            Node::Gate(kind, a, b) => {
                let children = match operand_count(kind) {
                    0 => vec![],
                    1 => vec![Id::from(a)],
                    _ => vec![Id::from(a), Id::from(b)],
                };
                out.add(SymbolLang::new(operator(kind), children));
            }
        }
    }
    out
}

fn from_egg(expr: &RecExpr<SymbolLang>) -> Expr {
    let nodes = expr
        .as_ref()
        .iter()
        .map(|node| match kind_of(node.op.as_str()) {
            Some(kind) => {
                let a = node.children.first().map(|id| usize::from(*id)).unwrap_or(0);
                let b = node.children.get(1).map(|id| usize::from(*id)).unwrap_or(a);
                Node::Gate(kind, a, b)
            }
            None => Node::Wire(node.op.as_str().trim_start_matches('w').parse().unwrap()),
        })
        .collect();
    Expr { nodes }
}

fn simplify(expr: &Expr) -> Expr {
    let runner = Runner::default().with_expr(&to_egg(expr)).run(&rewrites());
    let extractor = Extractor::new(&runner.egraph, Weights);
    let (_, best) = extractor.find_best(runner.roots[0]);
    cheaper_of(expr.clone(), from_egg(&best))
}

fn truth(kind: GateType, a: bool, b: bool) -> bool {
    match kind {
        GateType::AND => a && b,
        GateType::OR => a || b,
        GateType::XOR => a != b,
        GateType::NAND => !(a && b),
        GateType::NOR => !(a || b),
        GateType::XNOR => a == b,
        GateType::ANDNOT => a && !b,
        GateType::ORNOT => a || !b,
        GateType::NOT => !a,
        GateType::CONST => a,
        GateType::CONST_0 => false,
        GateType::CONST_1 => true,
        GateType::INPUT => a,
    }
}

fn wire_bit(c: &Circuit, w: u64, assignment: u64) -> bool {
    match c.get(&w) {
        None => (assignment >> w) & 1 == 1,
        Some((GateType::INPUT, _)) => (assignment >> w) & 1 == 1,
        Some((kind, inputs)) => {
            let x = if !inputs.is_empty() { wire_bit(c, inputs[0], assignment) } else { false };
            let y = if inputs.len() >= 2 { wire_bit(c, inputs[1], assignment) } else { false };
            truth(*kind, x, y)
        }
    }
}

/// wire 6 is `(a and not b) or (b and not a)` of the inputs 0 and 1; wire 9
/// is the carry of a full adder on the inputs 0, 1, 2
fn netlist() -> Circuit {
    let mut c: Circuit = BTreeMap::new();
    for w in 0..3u64 {
        c.insert(w, (GateType::INPUT, vec![]));
    }
    c.insert(3, (GateType::NOT, vec![0]));
    c.insert(4, (GateType::NOT, vec![1]));
    c.insert(5, (GateType::AND, vec![0, 4]));
    c.insert(7, (GateType::AND, vec![1, 3]));
    c.insert(6, (GateType::OR, vec![5, 7]));
    c.insert(10, (GateType::XOR, vec![0, 1]));
    c.insert(11, (GateType::AND, vec![0, 1]));
    c.insert(12, (GateType::AND, vec![10, 2]));
    c.insert(9, (GateType::OR, vec![11, 12]));
    c
}

#[test]
fn saturation_finds_the_xor() {
    let c = netlist();
    let exprs = lift_outputs(&c, &vec![6]).unwrap();
    assert_eq!(exprs[0].cost(), Some(4.0 as u64 * 7 + 2 * 2));
    let best = simplify(&exprs[0]);
    assert_eq!(best.cost(), Some(9));
    let d = lower_outputs(&vec![best], &vec![6]).unwrap();
    assert_eq!(d.len(), 3);
    assert_eq!(d[&6].0, GateType::XOR);
    let mut reads = d[&6].1.clone();
    reads.sort();
    assert_eq!(reads, vec![0u64, 1]);
}

#[test]
fn optimized_netlist_keeps_the_outputs() {
    let c = netlist();
    let outputs = vec![6u64, 9];
    let exprs = lift_outputs(&c, &outputs).unwrap();
    let simplified: Vec<Expr> = exprs.iter().map(simplify).collect();
    let d = lower_outputs(&simplified, &outputs).unwrap();
    for assignment in 0..8u64 {
        for w in outputs.iter() {
            assert_eq!(wire_bit(&d, *w, assignment), wire_bit(&c, *w, assignment));
        }
    }
}

#[test]
fn optimized_expressions_cost_no_more() {
    let c = netlist();
    let outputs = vec![6u64, 9, 12, 5];
    let exprs = lift_outputs(&c, &outputs).unwrap();
    for expr in exprs.iter() {
        let best = simplify(expr);
        assert!(best.is_wf());
        assert!(best.cost().unwrap() <= expr.cost().unwrap());
    }
}

#[test]
fn optimize_with_saturation_keeps_the_outputs() {
    let c = netlist();
    let outputs = vec![6u64, 9];
    let d = optimize(c.clone(), outputs.clone(), |e: &Expr| simplify(e)).unwrap();
    for assignment in 0..8u64 {
        for w in outputs.iter() {
            assert_eq!(wire_bit(&d, *w, assignment), wire_bit(&c, *w, assignment));
        }
    }
    assert_eq!(d[&6].0, GateType::XOR);
    assert!(d.len() < c.len());
}

#[test]
fn optimize_refuses_what_costs_more() {
    let c = netlist();
    let outputs = vec![6u64, 9];
    // a rewriting that only makes things worse is not followed
    let worse = |e: &Expr| {
        let mut nodes = e.nodes.clone();
        let root = nodes.len() - 1;
        nodes.push(Node::Gate(GateType::NOT, root, root));
        nodes.push(Node::Gate(GateType::NOT, root + 1, root + 1));
        Expr { nodes }
    };
    let plain = optimize(c.clone(), outputs.clone(), |e: &Expr| e.clone()).unwrap();
    let d = optimize(c.clone(), outputs.clone(), worse).unwrap();
    assert_eq!(d, plain);
    for assignment in 0..8u64 {
        for w in outputs.iter() {
            assert_eq!(wire_bit(&d, *w, assignment), wire_bit(&c, *w, assignment));
        }
    }
}

#[test]
fn optimize_reports_cycle_and_arity() {
    let mut c: Circuit = BTreeMap::new();
    c.insert(1, (GateType::NOT, vec![2]));
    c.insert(2, (GateType::NOT, vec![1]));
    assert_eq!(
        optimize(c.clone(), vec![1], |e: &Expr| e.clone()),
        Err(garbled_circuit::error::ProtocolError::CycleDetected)
    );
    assert_eq!(optimize(c, vec![], |e: &Expr| e.clone()).unwrap().len(), 0);
    let mut c: Circuit = BTreeMap::new();
    c.insert(0, (GateType::INPUT, vec![]));
    c.insert(1, (GateType::OR, vec![0]));
    assert_eq!(
        optimize(c, vec![1], |e: &Expr| e.clone()),
        Err(garbled_circuit::error::ProtocolError::ArityMismatch)
    );
}
